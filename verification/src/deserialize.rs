//! Deserialization of the basic types from a token stream.
use vstd::prelude::*;

use crate::error::{Error, ErrorView};
use crate::streaming::{
    convert_error, converted, expected_error, expected_found, failure, head, rest, used, Outcome,
    Pending, StreamDeserialize, Tokenizer,
};
use crate::text::{decimal, push_decimal, push_str};
use crate::token::{token_text, Number, NumberView, Token, TokenView};

verus! {

/// Reading a value that is a single token: `read` says what a token that was
/// read gives.
pub open spec fn one_token<V>(p: Pending, read: spec_fn(TokenView) -> Outcome<V>) -> (Outcome<V>, nat) {
    match head(p) {
        None => (Outcome::TokenizerFailed, used(p)),
        Some(t) => (read(t), used(p)),
    }
}

impl StreamDeserialize for bool {
    open spec fn spec_from_tokens(p: Pending) -> (Outcome<bool>, nat) {
        one_token(
            p,
            |t: TokenView|
                match t {
                    TokenView::Bool(b) => Outcome::Value(b),
                    _ => Outcome::Rejected(expected_error("bool"@, t)),
                },
        )
    }


    fn deserialize_from_tokens<T: Tokenizer>(tokenizer: &mut T) -> (r: Result<bool, Error>) where
        T::Error: Into<Error>,
     {
        match tokenizer.next_token() {
            Ok(Token::Bool(b)) => Ok(b),
            Ok(token) => Err(expected_found("bool", &token)),
            Err(e) => Err(convert_error::<T>(e)),
        }
    }
}

impl StreamDeserialize for String {
    open spec fn spec_from_tokens(p: Pending) -> (Outcome<Seq<char>>, nat) {
        one_token(
            p,
            |t: TokenView|
                match t {
                    TokenView::String(s) => Outcome::Value(s),
                    _ => Outcome::Rejected(expected_error("string"@, t)),
                },
        )
    }


    fn deserialize_from_tokens<T: Tokenizer>(tokenizer: &mut T) -> (r: Result<String, Error>) where
        T::Error: Into<Error>,
     {
        match tokenizer.next_token() {
            Ok(Token::String(s)) => Ok(s),
            Ok(token) => Err(expected_found("string", &token)),
            Err(e) => Err(convert_error::<T>(e)),
        }
    }
}

/// What converting a number to an integer type with bounds `min` and `max` gives:
/// a float is not converted, an integer out of the bounds is out of bounds.
pub open spec fn int_of_number(n: NumberView, min: int, max: int) -> Outcome<int> {
    match n {
        NumberView::Float(_) => Outcome::Rejected(ErrorView::UnsupportedConversion),
        NumberView::SignedInt(i) => if min <= i <= max {
            Outcome::Value(i as int)
        } else {
            Outcome::Rejected(ErrorView::OutOfBounds)
        },
        NumberView::UnsignedInt(u) => if min <= u <= max {
            Outcome::Value(u as int)
        } else {
            Outcome::Rejected(ErrorView::OutOfBounds)
        },
    }
}

/// Reading an integer of the type named `name`, with bounds `min` and `max`.
pub open spec fn int_from_tokens(p: Pending, name: Seq<char>, min: int, max: int) -> (Outcome<int>, nat) {
    one_token(
        p,
        |t: TokenView|
            match t {
                TokenView::Number(n) => int_of_number(n, min, max),
                _ => Outcome::Rejected(expected_error(name, t)),
            },
    )
}

impl Number {
    /// Convert to an integer within the bounds `min` and `max`.
    pub fn to_int_within(&self, min: i128, max: i128) -> (r: Result<i128, Error>)
        ensures
            (match int_of_number(self@, min as int, max as int) {
                Outcome::Value(v) => r == Ok::<i128, Error>(v as i128),
                Outcome::Rejected(e) => r matches Err(x) && x@ == e,
                Outcome::TokenizerFailed => false,
            }),
    {
        match self {
            Number::Float(_) => Err(Error::UnsupportedConversion),
            Number::SignedInt(i) => {
                if min <= *i as i128 && *i as i128 <= max {
                    Ok(*i as i128)
                } else {
                    Err(Error::OutOfBounds)
                }
            },
            Number::UnsignedInt(u) => {
                if min <= *u as i128 && *u as i128 <= max {
                    Ok(*u as i128)
                } else {
                    Err(Error::OutOfBounds)
                }
            },
        }
    }
}

/// Read an integer of the type named `name`, with bounds `min` and `max`.
fn read_int<T: Tokenizer>(tokenizer: &mut T, name: &str, min: i128, max: i128) -> (r: Result<
    i128,
    Error,
>) where T::Error: Into<Error>,

    ensures
        (match int_from_tokens(old(tokenizer).pending(), name@, min as int, max as int).0 {
            Outcome::Value(v) => r == Ok::<i128, Error>(v as i128),
            Outcome::Rejected(e) => r matches Err(x) && x@ == e,
            Outcome::TokenizerFailed => r matches Err(y) && converted::<T>(
                old(tokenizer).error_at(0),
                y,
            ),
        }),
        int_from_tokens(old(tokenizer).pending(), name@, min as int, max as int).0 is TokenizerFailed
            ==> int_from_tokens(old(tokenizer).pending(), name@, min as int, max as int).1 == 1,
        final(tokenizer).pending() == old(tokenizer).pending().skip(
            int_from_tokens(old(tokenizer).pending(), name@, min as int, max as int).1 as int,
        ),
        forall|i: nat| #[trigger]
            final(tokenizer).error_at(i) == old(tokenizer).error_at(
                i + int_from_tokens(old(tokenizer).pending(), name@, min as int, max as int).1,
            ),
{
    let ghost p = tokenizer.pending();
    let r = match tokenizer.next_token() {
        Ok(Token::Number(n)) => n.to_int_within(min, max),
        Ok(token) => Err(expected_found(name, &token)),
        Err(e) => Err(convert_error::<T>(e)),
    };
    assert(rest(p) =~= p.skip(used(p) as int));
    r
}

impl StreamDeserialize for i8 {
    open spec fn spec_from_tokens(p: Pending) -> (Outcome<i8>, nat) {
        let (o, n) = int_from_tokens(p, "i8"@, i8::MIN as int, i8::MAX as int);
        (
            match o {
                Outcome::Value(v) => Outcome::Value(v as i8),
                _ => failure(o),
            },
            n,
        )
    }


    fn deserialize_from_tokens<T: Tokenizer>(tokenizer: &mut T) -> (r: Result<i8, Error>) where
        T::Error: Into<Error>,
     {
        match read_int(tokenizer, "i8", i8::MIN as i128, i8::MAX as i128) {
            Ok(v) => Ok(v as i8),
            Err(e) => Err(e),
        }
    }
}

impl StreamDeserialize for i16 {
    open spec fn spec_from_tokens(p: Pending) -> (Outcome<i16>, nat) {
        let (o, n) = int_from_tokens(p, "i16"@, i16::MIN as int, i16::MAX as int);
        (
            match o {
                Outcome::Value(v) => Outcome::Value(v as i16),
                _ => failure(o),
            },
            n,
        )
    }


    fn deserialize_from_tokens<T: Tokenizer>(tokenizer: &mut T) -> (r: Result<i16, Error>) where
        T::Error: Into<Error>,
     {
        match read_int(tokenizer, "i16", i16::MIN as i128, i16::MAX as i128) {
            Ok(v) => Ok(v as i16),
            Err(e) => Err(e),
        }
    }
}

impl StreamDeserialize for i32 {
    open spec fn spec_from_tokens(p: Pending) -> (Outcome<i32>, nat) {
        let (o, n) = int_from_tokens(p, "i32"@, i32::MIN as int, i32::MAX as int);
        (
            match o {
                Outcome::Value(v) => Outcome::Value(v as i32),
                _ => failure(o),
            },
            n,
        )
    }


    fn deserialize_from_tokens<T: Tokenizer>(tokenizer: &mut T) -> (r: Result<i32, Error>) where
        T::Error: Into<Error>,
     {
        match read_int(tokenizer, "i32", i32::MIN as i128, i32::MAX as i128) {
            Ok(v) => Ok(v as i32),
            Err(e) => Err(e),
        }
    }
}

impl StreamDeserialize for i64 {
    open spec fn spec_from_tokens(p: Pending) -> (Outcome<i64>, nat) {
        let (o, n) = int_from_tokens(p, "i64"@, i64::MIN as int, i64::MAX as int);
        (
            match o {
                Outcome::Value(v) => Outcome::Value(v as i64),
                _ => failure(o),
            },
            n,
        )
    }


    fn deserialize_from_tokens<T: Tokenizer>(tokenizer: &mut T) -> (r: Result<i64, Error>) where
        T::Error: Into<Error>,
     {
        match read_int(tokenizer, "i64", i64::MIN as i128, i64::MAX as i128) {
            Ok(v) => Ok(v as i64),
            Err(e) => Err(e),
        }
    }
}

impl StreamDeserialize for isize {
    open spec fn spec_from_tokens(p: Pending) -> (Outcome<isize>, nat) {
        let (o, n) = int_from_tokens(p, "isize"@, isize::MIN as int, isize::MAX as int);
        (
            match o {
                Outcome::Value(v) => Outcome::Value(v as isize),
                _ => failure(o),
            },
            n,
        )
    }


    fn deserialize_from_tokens<T: Tokenizer>(tokenizer: &mut T) -> (r: Result<isize, Error>) where
        T::Error: Into<Error>,
     {
        match read_int(tokenizer, "isize", isize::MIN as i128, isize::MAX as i128) {
            Ok(v) => Ok(v as isize),
            Err(e) => Err(e),
        }
    }
}

impl StreamDeserialize for u8 {
    open spec fn spec_from_tokens(p: Pending) -> (Outcome<u8>, nat) {
        let (o, n) = int_from_tokens(p, "u8"@, u8::MIN as int, u8::MAX as int);
        (
            match o {
                Outcome::Value(v) => Outcome::Value(v as u8),
                _ => failure(o),
            },
            n,
        )
    }


    fn deserialize_from_tokens<T: Tokenizer>(tokenizer: &mut T) -> (r: Result<u8, Error>) where
        T::Error: Into<Error>,
     {
        match read_int(tokenizer, "u8", u8::MIN as i128, u8::MAX as i128) {
            Ok(v) => Ok(v as u8),
            Err(e) => Err(e),
        }
    }
}

impl StreamDeserialize for u16 {
    open spec fn spec_from_tokens(p: Pending) -> (Outcome<u16>, nat) {
        let (o, n) = int_from_tokens(p, "u16"@, u16::MIN as int, u16::MAX as int);
        (
            match o {
                Outcome::Value(v) => Outcome::Value(v as u16),
                _ => failure(o),
            },
            n,
        )
    }


    fn deserialize_from_tokens<T: Tokenizer>(tokenizer: &mut T) -> (r: Result<u16, Error>) where
        T::Error: Into<Error>,
     {
        match read_int(tokenizer, "u16", u16::MIN as i128, u16::MAX as i128) {
            Ok(v) => Ok(v as u16),
            Err(e) => Err(e),
        }
    }
}

impl StreamDeserialize for u32 {
    open spec fn spec_from_tokens(p: Pending) -> (Outcome<u32>, nat) {
        let (o, n) = int_from_tokens(p, "u32"@, u32::MIN as int, u32::MAX as int);
        (
            match o {
                Outcome::Value(v) => Outcome::Value(v as u32),
                _ => failure(o),
            },
            n,
        )
    }


    fn deserialize_from_tokens<T: Tokenizer>(tokenizer: &mut T) -> (r: Result<u32, Error>) where
        T::Error: Into<Error>,
     {
        match read_int(tokenizer, "u32", u32::MIN as i128, u32::MAX as i128) {
            Ok(v) => Ok(v as u32),
            Err(e) => Err(e),
        }
    }
}

impl StreamDeserialize for u64 {
    open spec fn spec_from_tokens(p: Pending) -> (Outcome<u64>, nat) {
        let (o, n) = int_from_tokens(p, "u64"@, u64::MIN as int, u64::MAX as int);
        (
            match o {
                Outcome::Value(v) => Outcome::Value(v as u64),
                _ => failure(o),
            },
            n,
        )
    }


    fn deserialize_from_tokens<T: Tokenizer>(tokenizer: &mut T) -> (r: Result<u64, Error>) where
        T::Error: Into<Error>,
     {
        match read_int(tokenizer, "u64", u64::MIN as i128, u64::MAX as i128) {
            Ok(v) => Ok(v as u64),
            Err(e) => Err(e),
        }
    }
}

impl StreamDeserialize for usize {
    open spec fn spec_from_tokens(p: Pending) -> (Outcome<usize>, nat) {
        let (o, n) = int_from_tokens(p, "usize"@, usize::MIN as int, usize::MAX as int);
        (
            match o {
                Outcome::Value(v) => Outcome::Value(v as usize),
                _ => failure(o),
            },
            n,
        )
    }


    fn deserialize_from_tokens<T: Tokenizer>(tokenizer: &mut T) -> (r: Result<usize, Error>) where
        T::Error: Into<Error>,
     {
        match read_int(tokenizer, "usize", usize::MIN as i128, usize::MAX as i128) {
            Ok(v) => Ok(v as usize),
            Err(e) => Err(e),
        }
    }
}

impl<E> StreamDeserialize for Option<E> where E: StreamDeserialize {
    /// `null` gives `None`; anything else is read as a `E`.
    open spec fn spec_from_tokens(p: Pending) -> (Outcome<Option<<E as DeepView>::V>>, nat) {
        match head(p) {
            None => (Outcome::TokenizerFailed, used(p)),
            Some(TokenView::Null) => (Outcome::Value(None), used(p)),
            Some(_) => {
                let (o, n) = E::spec_from_tokens(p);
                (
                    match o {
                        Outcome::Value(v) => Outcome::Value(Some(v)),
                        _ => failure(o),
                    },
                    n,
                )
            },
        }
    }


    fn deserialize_from_tokens<T: Tokenizer>(tokenizer: &mut T) -> (r: Result<Option<E>, Error>) where
        T::Error: Into<Error>,
     {
        let ghost p = tokenizer.pending();
        let is_null = match tokenizer.peek_token() {
            Ok(Token::Null) => true,
            Ok(_) => false,
            Err(e) => {
                assert(rest(p) =~= p.skip(used(p) as int));
                return Err(convert_error::<T>(e));
            },
        };
        if is_null {
            match tokenizer.next_token() {
                Ok(_) => {},
                Err(e) => {
                    return Err(convert_error::<T>(e));
                },
            }
            assert(rest(p) =~= p.skip(used(p) as int));
            Ok(None)
        } else {
            match E::deserialize_from_tokens(tokenizer) {
                Ok(v) => Ok(Some(v)),
                Err(e) => Err(e),
            }
        }
    }
}

impl StreamDeserialize for i128 {
    open spec fn spec_from_tokens(p: Pending) -> (Outcome<i128>, nat) {
        let (o, n) = int_from_tokens(p, "i128"@, i128::MIN as int, i128::MAX as int);
        (
            match o {
                Outcome::Value(v) => Outcome::Value(v as i128),
                _ => failure(o),
            },
            n,
        )
    }

    fn deserialize_from_tokens<T: Tokenizer>(tokenizer: &mut T) -> (r: Result<i128, Error>) where
        T::Error: Into<Error>,
     {
        read_int(tokenizer, "i128", i128::MIN, i128::MAX)
    }
}

impl StreamDeserialize for u128 {
    open spec fn spec_from_tokens(p: Pending) -> (Outcome<u128>, nat) {
        let (o, n) = int_from_tokens(p, "u128"@, 0, u128::MAX as int);
        (
            match o {
                Outcome::Value(v) => Outcome::Value(v as u128),
                _ => failure(o),
            },
            n,
        )
    }

    fn deserialize_from_tokens<T: Tokenizer>(tokenizer: &mut T) -> (r: Result<u128, Error>) where
        T::Error: Into<Error>,
     {
        // No number in a token exceeds `u64::MAX`, so these bounds accept what `u128`'s do.
        let r = read_int(tokenizer, "u128", 0, u64::MAX as i128);
        assert(forall|n: NumberView|
            #![trigger int_of_number(n, 0, u64::MAX as int)]
            int_of_number(n, 0, u64::MAX as int) == int_of_number(n, 0, u128::MAX as int));
        match r {
            Ok(v) => Ok(v as u128),
            Err(e) => Err(e),
        }
    }
}

impl StreamDeserialize for () {
    /// `null`.
    open spec fn spec_from_tokens(p: Pending) -> (Outcome<()>, nat) {
        one_token(
            p,
            |t: TokenView|
                match t {
                    TokenView::Null => Outcome::Value(()),
                    _ => Outcome::Rejected(expected_error("null"@, t)),
                },
        )
    }

    fn deserialize_from_tokens<T: Tokenizer>(tokenizer: &mut T) -> (r: Result<(), Error>) where
        T::Error: Into<Error>,
     {
        match tokenizer.next_token() {
            Ok(Token::Null) => Ok(()),
            Ok(token) => Err(expected_found("null", &token)),
            Err(e) => Err(convert_error::<T>(e)),
        }
    }
}

impl StreamDeserialize for char {
    /// A string of exactly one character.
    open spec fn spec_from_tokens(p: Pending) -> (Outcome<char>, nat) {
        one_token(
            p,
            |t: TokenView|
                match t {
                    TokenView::String(s) => if s.len() == 1 {
                        Outcome::Value(s[0])
                    } else {
                        Outcome::Rejected(expected_error("char"@, t))
                    },
                    _ => Outcome::Rejected(expected_error("char"@, t)),
                },
        )
    }

    fn deserialize_from_tokens<T: Tokenizer>(tokenizer: &mut T) -> (r: Result<char, Error>) where
        T::Error: Into<Error>,
     {
        match tokenizer.next_token() {
            Ok(Token::String(s)) => {
                let n = s.as_str().unicode_len();
                if n == 1 {
                    Ok(s.as_str().get_char(0))
                } else {
                    Err(expected_found("char", &Token::String(s)))
                }
            },
            Ok(token) => Err(expected_found("char", &token)),
            Err(e) => Err(convert_error::<T>(e)),
        }
    }
}

impl<E> StreamDeserialize for Box<E> where E: StreamDeserialize {
    /// As for the boxed type.
    open spec fn spec_from_tokens(p: Pending) -> (Outcome<<E as DeepView>::V>, nat) {
        E::spec_from_tokens(p)
    }

    fn deserialize_from_tokens<T: Tokenizer>(tokenizer: &mut T) -> (r: Result<Box<E>, Error>) where
        T::Error: Into<Error>,
     {
        match E::deserialize_from_tokens(tokenizer) {
            Ok(v) => Ok(Box::new(v)),
            Err(e) => Err(e),
        }
    }
}

/// Reading the elements of an array, after its start, `acc` read so far: each
/// element is read as a `E` until the end of the array is seen.
pub open spec fn vec_items<E: StreamDeserialize>(p: Pending, acc: Seq<<E as DeepView>::V>) -> (
    Outcome<Seq<<E as DeepView>::V>>,
    nat,
)
    decreases p.len(),
{
    match head(p) {
        None => (Outcome::TokenizerFailed, used(p)),
        Some(TokenView::ArrayEnd) => (Outcome::Value(acc), used(p)),
        Some(_) => {
            let (o, n) = E::spec_from_tokens(p);
            match o {
                Outcome::Value(v) => if 1 <= n <= p.len() {
                    let (o2, n2) = vec_items::<E>(p.skip(n as int), acc.push(v));
                    (o2, n + n2)
                } else {
                    (Outcome::TokenizerFailed, n)
                },
                _ => (failure(o), n),
            }
        },
    }
}

impl<E> StreamDeserialize for Vec<E> where E: StreamDeserialize {
    /// An array start, then elements, then an array end.
    open spec fn spec_from_tokens(p: Pending) -> (Outcome<Seq<<E as DeepView>::V>>, nat) {
        match head(p) {
            None => (Outcome::TokenizerFailed, used(p)),
            Some(TokenView::ArrayStart) => {
                let (o, n) = vec_items::<E>(p.drop_first(), seq![]);
                (o, n + 1)
            },
            Some(t) => (Outcome::Rejected(expected_error("array"@, t)), used(p)),
        }
    }


    fn deserialize_from_tokens<T: Tokenizer>(tokenizer: &mut T) -> (r: Result<Vec<E>, Error>) where
        T::Error: Into<Error>,
     {
        let ghost p0 = tokenizer.pending();
        let ghost t0 = *tokenizer;
        match tokenizer.next_token() {
            Ok(Token::ArrayStart) => {
                let mut vec: Vec<E> = Vec::new();
                let ghost mut k: nat = 1;
                assert(p0.skip(1) =~= p0.drop_first());
                assert(vec.deep_view() =~= Seq::<<E as DeepView>::V>::empty());
                loop
                    invariant
                        p0 == old(tokenizer).pending(),
                        t0 == *old(tokenizer),
                        1 <= k <= p0.len(),
                        forall|i: nat| #[trigger] tokenizer.error_at(i) == t0.error_at(k + i),
                        tokenizer.pending() == p0.skip(k as int),
                        Self::spec_from_tokens(p0) == ({
                            let (o, n) = vec_items::<E>(tokenizer.pending(), vec.deep_view());
                            (o, k + n)
                        }),
                    decreases tokenizer.pending().len(),
                {
                    let ghost q = tokenizer.pending();
                    let at_end = match tokenizer.peek_token() {
                        Ok(Token::ArrayEnd) => true,
                        Ok(_) => false,
                        Err(e) => {
                            assert(p0.skip((k + 1) as int) =~= q.drop_first());
                            return Err(convert_error::<T>(e));
                        },
                    };
                    if at_end {
                        match tokenizer.next_token() {
                            Ok(_) => {},
                            Err(e) => {
                                return Err(convert_error::<T>(e));
                            },
                        }
                        assert(p0.skip((k + 1) as int) =~= q.drop_first());
                        return Ok(vec);
                    }
                    let ghost n = E::spec_from_tokens(q).1;
                    let item = E::deserialize_from_tokens(tokenizer);
                    assert(q.skip(n as int) =~= p0.skip((k + n) as int));
                    match item {
                        Ok(v) => {
                            let ghost before = vec.deep_view();
                            vec.push(v);
                            assert(vec.deep_view() =~= before.push(v.deep_view()));
                            proof {
                                k = k + n;
                            }
                        },
                        Err(e) => {
                            return Err(e);
                        },
                    }
                }
            },
            Ok(token) => {
                assert(rest(p0) =~= p0.skip(used(p0) as int));
                Err(expected_found("array", &token))
            },
            Err(e) => {
                assert(rest(p0) =~= p0.skip(used(p0) as int));
                Err(convert_error::<T>(e))
            },
        }
    }
}


/// The message for an array that ends after `found` of the `len` elements asked for.
pub open spec fn too_short_text(len: nat, found: nat) -> Seq<char> {
    "expected array of length "@ + decimal(len) + ", found array of length "@ + decimal(found)
}

/// The message for an array that goes on after the `len` elements asked for.
pub open spec fn too_long_text(len: nat) -> Seq<char> {
    "expected array of length "@ + decimal(len) + ", found longer array"@
}

/// Reading the elements of an array of `len` elements, after its start, with
/// `left` of them still to read and `acc` read so far; then its end.
pub open spec fn array_items<E: StreamDeserialize>(
    p: Pending,
    left: nat,
    acc: Seq<<E as DeepView>::V>,
    len: nat,
) -> (Outcome<Seq<<E as DeepView>::V>>, nat)
    decreases left,
{
    if left == 0 {
        match head(p) {
            None => (Outcome::TokenizerFailed, used(p)),
            Some(TokenView::ArrayEnd) => (Outcome::Value(acc), used(p)),
            Some(_) => (Outcome::Rejected(ErrorView::InvalidValue(too_long_text(len))), used(p)),
        }
    } else {
        match head(p) {
            None => (Outcome::TokenizerFailed, used(p)),
            Some(TokenView::ArrayEnd) => (
                Outcome::Rejected(ErrorView::InvalidValue(too_short_text(len, (len - left) as nat))),
                0,
            ),
            Some(_) => {
                let (o, n) = E::spec_from_tokens(p);
                match o {
                    Outcome::Value(v) => if 1 <= n <= p.len() {
                        let (o2, n2) = array_items::<E>(
                            p.skip(n as int),
                            (left - 1) as nat,
                            acc.push(v),
                            len,
                        );
                        (o2, n + n2)
                    } else {
                        (Outcome::TokenizerFailed, n)
                    },
                    _ => (failure(o), n),
                }
            },
        }
    }
}


/// `<[E; N] as TryFrom<Vec<E>>>::try_from`: the vector's elements as an array
/// when it has exactly `N` of them, else the vector given back.
#[verifier::external_body]
fn vec_into_array<E, const N: usize>(v: Vec<E>) -> (r: Result<[E; N], Vec<E>>)
    ensures
        (match r {
            Ok(a) => v.len() == N && a@ == v@,
            Err(w) => v.len() != N && w@ == v@,
        }),
{
    <[E; N]>::try_from(v)
}

/// The message for an array of the wrong length.
fn wrong_length(n: usize, found: Option<usize>) -> (e: Error)
    ensures
        (match found {
            Some(i) => e@ == ErrorView::InvalidValue(too_short_text(n as nat, i as nat)),
            None => e@ == ErrorView::InvalidValue(too_long_text(n as nat)),
        }),
{
    let mut m = "expected array of length ".to_owned();
    push_decimal(&mut m, n as u64);
    match found {
        Some(i) => {
            push_str(&mut m, ", found array of length ");
            push_decimal(&mut m, i as u64);
        },
        None => {
            push_str(&mut m, ", found longer array");
        },
    }
    Error::invalid_value(m)
}

impl<E, const N: usize> StreamDeserialize for [E; N] where E: StreamDeserialize {
    /// An array start, exactly `N` elements, then an array end.
    open spec fn spec_from_tokens(p: Pending) -> (Outcome<Seq<<E as DeepView>::V>>, nat) {
        match head(p) {
            None => (Outcome::TokenizerFailed, used(p)),
            Some(TokenView::ArrayStart) => {
                let (o, n) = array_items::<E>(p.drop_first(), N as nat, seq![], N as nat);
                (o, n + 1)
            },
            Some(t) => (Outcome::Rejected(expected_error("array"@, t)), used(p)),
        }
    }


    fn deserialize_from_tokens<T: Tokenizer>(tokenizer: &mut T) -> (r: Result<[E; N], Error>) where
        T::Error: Into<Error>,
     {
        let ghost p0 = tokenizer.pending();
        let ghost t0 = *tokenizer;
        match tokenizer.next_token() {
            Ok(Token::ArrayStart) => {},
            Ok(token) => {
                assert(rest(p0) =~= p0.skip(used(p0) as int));
                return Err(expected_found("array", &token));
            },
            Err(e) => {
                assert(rest(p0) =~= p0.skip(used(p0) as int));
                return Err(convert_error::<T>(e));
            },
        }
        let mut result: Vec<E> = Vec::with_capacity(N);
        let ghost mut k: nat = 1;
        assert(p0.skip(1) =~= p0.drop_first());
        assert(result.deep_view() =~= Seq::<<E as DeepView>::V>::empty());
        // Read exactly N elements
        let mut i: usize = 0;
        while i < N
            invariant
                p0 == old(tokenizer).pending(),
                t0 == *old(tokenizer),
                forall|j: nat| #[trigger] tokenizer.error_at(j) == t0.error_at(k + j),
                i <= N,
                result@.len() == i,
                1 <= k <= p0.len(),
                tokenizer.pending() == p0.skip(k as int),
                Self::spec_from_tokens(p0) == ({
                    let (o, n) = array_items::<E>(
                        tokenizer.pending(),
                        (N - i) as nat,
                        result.deep_view(),
                        N as nat,
                    );
                    (o, k + n)
                }),
            decreases N - i,
        {
            let ghost q = tokenizer.pending();
            let at_end = match tokenizer.peek_token() {
                Ok(Token::ArrayEnd) => true,
                Ok(_) => false,
                Err(e) => {
                    assert(p0.skip((k + 1) as int) =~= q.drop_first());
                    return Err(convert_error::<T>(e));
                },
            };
            if at_end {
                return Err(wrong_length(N, Some(i)));
            }
            let ghost n = E::spec_from_tokens(q).1;
            let item = E::deserialize_from_tokens(tokenizer);
            assert(q.skip(n as int) =~= p0.skip((k + n) as int));
            match item {
                Ok(v) => {
                    let ghost before = result.deep_view();
                    result.push(v);
                    assert(result.deep_view() =~= before.push(v.deep_view()));
                    proof {
                        k = k + n;
                    }
                },
                Err(e) => {
                    return Err(e);
                },
            }
            i = i + 1;
        }
        let ghost q = tokenizer.pending();
        // Expect the end of the array
        match tokenizer.next_token() {
            Ok(Token::ArrayEnd) => {
                assert(p0.skip((k + 1) as int) =~= q.drop_first());
                let ghost items = result.deep_view();
                match vec_into_array::<E, N>(result) {
                    Ok(a) => {
                        assert(a.deep_view() =~= items);
                        Ok(a)
                    },
                    Err(_) => {
                        let mut m = "failed to convert vector to array of length ".to_owned();
                        push_decimal(&mut m, N as u64);
                        Err(Error::invalid_value(m))
                    },
                }
            },
            Ok(_) => {
                assert(p0.skip((k + used(q)) as int) =~= rest(q));
                Err(wrong_length(N, None))
            },
            Err(e) => {
                assert(p0.skip((k + 1) as int) =~= q.drop_first());
                Err(convert_error::<T>(e))
            },
        }
    }
}

/// Every integer type reads a number token holding a negative integer `i` as
/// `i` when `i` lies between the type's `MIN` and `MAX`, and refuses it as out
/// of bounds otherwise; either way it takes the one token.
pub proof fn law_negative_integers_read(p: Pending, i: i64)
    requires
        p.len() > 0,
        p[0] == Some(TokenView::Number(NumberView::SignedInt(i))),
    ensures
        i8::MIN <= i <= i8::MAX ==> <i8 as StreamDeserialize>::spec_from_tokens(p) == (
            Outcome::Value(i as i8),
            1nat,
        ),
        !(i8::MIN <= i <= i8::MAX) ==> <i8 as StreamDeserialize>::spec_from_tokens(p) == (
            Outcome::<i8>::Rejected(ErrorView::OutOfBounds),
            1nat,
        ),
        i16::MIN <= i <= i16::MAX ==> <i16 as StreamDeserialize>::spec_from_tokens(p) == (
            Outcome::Value(i as i16),
            1nat,
        ),
        !(i16::MIN <= i <= i16::MAX) ==> <i16 as StreamDeserialize>::spec_from_tokens(p) == (
            Outcome::<i16>::Rejected(ErrorView::OutOfBounds),
            1nat,
        ),
        i32::MIN <= i <= i32::MAX ==> <i32 as StreamDeserialize>::spec_from_tokens(p) == (
            Outcome::Value(i as i32),
            1nat,
        ),
        !(i32::MIN <= i <= i32::MAX) ==> <i32 as StreamDeserialize>::spec_from_tokens(p) == (
            Outcome::<i32>::Rejected(ErrorView::OutOfBounds),
            1nat,
        ),
        i64::MIN <= i <= i64::MAX ==> <i64 as StreamDeserialize>::spec_from_tokens(p) == (
            Outcome::Value(i as i64),
            1nat,
        ),
        !(i64::MIN <= i <= i64::MAX) ==> <i64 as StreamDeserialize>::spec_from_tokens(p) == (
            Outcome::<i64>::Rejected(ErrorView::OutOfBounds),
            1nat,
        ),
        isize::MIN <= i <= isize::MAX ==> <isize as StreamDeserialize>::spec_from_tokens(p) == (
            Outcome::Value(i as isize),
            1nat,
        ),
        !(isize::MIN <= i <= isize::MAX) ==> <isize as StreamDeserialize>::spec_from_tokens(p) == (
            Outcome::<isize>::Rejected(ErrorView::OutOfBounds),
            1nat,
        ),
        i128::MIN <= i <= i128::MAX ==> <i128 as StreamDeserialize>::spec_from_tokens(p) == (
            Outcome::Value(i as i128),
            1nat,
        ),
        !(i128::MIN <= i <= i128::MAX) ==> <i128 as StreamDeserialize>::spec_from_tokens(p) == (
            Outcome::<i128>::Rejected(ErrorView::OutOfBounds),
            1nat,
        ),
        u8::MIN <= i <= u8::MAX ==> <u8 as StreamDeserialize>::spec_from_tokens(p) == (
            Outcome::Value(i as u8),
            1nat,
        ),
        !(u8::MIN <= i <= u8::MAX) ==> <u8 as StreamDeserialize>::spec_from_tokens(p) == (
            Outcome::<u8>::Rejected(ErrorView::OutOfBounds),
            1nat,
        ),
        u16::MIN <= i <= u16::MAX ==> <u16 as StreamDeserialize>::spec_from_tokens(p) == (
            Outcome::Value(i as u16),
            1nat,
        ),
        !(u16::MIN <= i <= u16::MAX) ==> <u16 as StreamDeserialize>::spec_from_tokens(p) == (
            Outcome::<u16>::Rejected(ErrorView::OutOfBounds),
            1nat,
        ),
        u32::MIN <= i <= u32::MAX ==> <u32 as StreamDeserialize>::spec_from_tokens(p) == (
            Outcome::Value(i as u32),
            1nat,
        ),
        !(u32::MIN <= i <= u32::MAX) ==> <u32 as StreamDeserialize>::spec_from_tokens(p) == (
            Outcome::<u32>::Rejected(ErrorView::OutOfBounds),
            1nat,
        ),
        u64::MIN <= i <= u64::MAX ==> <u64 as StreamDeserialize>::spec_from_tokens(p) == (
            Outcome::Value(i as u64),
            1nat,
        ),
        !(u64::MIN <= i <= u64::MAX) ==> <u64 as StreamDeserialize>::spec_from_tokens(p) == (
            Outcome::<u64>::Rejected(ErrorView::OutOfBounds),
            1nat,
        ),
        usize::MIN <= i <= usize::MAX ==> <usize as StreamDeserialize>::spec_from_tokens(p) == (
            Outcome::Value(i as usize),
            1nat,
        ),
        !(usize::MIN <= i <= usize::MAX) ==> <usize as StreamDeserialize>::spec_from_tokens(p) == (
            Outcome::<usize>::Rejected(ErrorView::OutOfBounds),
            1nat,
        ),
        u128::MIN <= i <= u128::MAX ==> <u128 as StreamDeserialize>::spec_from_tokens(p) == (
            Outcome::Value(i as u128),
            1nat,
        ),
        !(u128::MIN <= i <= u128::MAX) ==> <u128 as StreamDeserialize>::spec_from_tokens(p) == (
            Outcome::<u128>::Rejected(ErrorView::OutOfBounds),
            1nat,
        ),
{
}

/// Every integer type reads a number token holding a non-negative integer `u`
/// as `u` when `u` lies between the type's `MIN` and `MAX`, and refuses it as
/// out of bounds otherwise; either way it takes the one token.
pub proof fn law_unsigned_integers_read(p: Pending, u: u64)
    requires
        p.len() > 0,
        p[0] == Some(TokenView::Number(NumberView::UnsignedInt(u))),
    ensures
        i8::MIN <= u <= i8::MAX ==> <i8 as StreamDeserialize>::spec_from_tokens(p) == (
            Outcome::Value(u as i8),
            1nat,
        ),
        !(i8::MIN <= u <= i8::MAX) ==> <i8 as StreamDeserialize>::spec_from_tokens(p) == (
            Outcome::<i8>::Rejected(ErrorView::OutOfBounds),
            1nat,
        ),
        i16::MIN <= u <= i16::MAX ==> <i16 as StreamDeserialize>::spec_from_tokens(p) == (
            Outcome::Value(u as i16),
            1nat,
        ),
        !(i16::MIN <= u <= i16::MAX) ==> <i16 as StreamDeserialize>::spec_from_tokens(p) == (
            Outcome::<i16>::Rejected(ErrorView::OutOfBounds),
            1nat,
        ),
        i32::MIN <= u <= i32::MAX ==> <i32 as StreamDeserialize>::spec_from_tokens(p) == (
            Outcome::Value(u as i32),
            1nat,
        ),
        !(i32::MIN <= u <= i32::MAX) ==> <i32 as StreamDeserialize>::spec_from_tokens(p) == (
            Outcome::<i32>::Rejected(ErrorView::OutOfBounds),
            1nat,
        ),
        i64::MIN <= u <= i64::MAX ==> <i64 as StreamDeserialize>::spec_from_tokens(p) == (
            Outcome::Value(u as i64),
            1nat,
        ),
        !(i64::MIN <= u <= i64::MAX) ==> <i64 as StreamDeserialize>::spec_from_tokens(p) == (
            Outcome::<i64>::Rejected(ErrorView::OutOfBounds),
            1nat,
        ),
        isize::MIN <= u <= isize::MAX ==> <isize as StreamDeserialize>::spec_from_tokens(p) == (
            Outcome::Value(u as isize),
            1nat,
        ),
        !(isize::MIN <= u <= isize::MAX) ==> <isize as StreamDeserialize>::spec_from_tokens(p) == (
            Outcome::<isize>::Rejected(ErrorView::OutOfBounds),
            1nat,
        ),
        i128::MIN <= u <= i128::MAX ==> <i128 as StreamDeserialize>::spec_from_tokens(p) == (
            Outcome::Value(u as i128),
            1nat,
        ),
        !(i128::MIN <= u <= i128::MAX) ==> <i128 as StreamDeserialize>::spec_from_tokens(p) == (
            Outcome::<i128>::Rejected(ErrorView::OutOfBounds),
            1nat,
        ),
        u8::MIN <= u <= u8::MAX ==> <u8 as StreamDeserialize>::spec_from_tokens(p) == (
            Outcome::Value(u as u8),
            1nat,
        ),
        !(u8::MIN <= u <= u8::MAX) ==> <u8 as StreamDeserialize>::spec_from_tokens(p) == (
            Outcome::<u8>::Rejected(ErrorView::OutOfBounds),
            1nat,
        ),
        u16::MIN <= u <= u16::MAX ==> <u16 as StreamDeserialize>::spec_from_tokens(p) == (
            Outcome::Value(u as u16),
            1nat,
        ),
        !(u16::MIN <= u <= u16::MAX) ==> <u16 as StreamDeserialize>::spec_from_tokens(p) == (
            Outcome::<u16>::Rejected(ErrorView::OutOfBounds),
            1nat,
        ),
        u32::MIN <= u <= u32::MAX ==> <u32 as StreamDeserialize>::spec_from_tokens(p) == (
            Outcome::Value(u as u32),
            1nat,
        ),
        !(u32::MIN <= u <= u32::MAX) ==> <u32 as StreamDeserialize>::spec_from_tokens(p) == (
            Outcome::<u32>::Rejected(ErrorView::OutOfBounds),
            1nat,
        ),
        u64::MIN <= u <= u64::MAX ==> <u64 as StreamDeserialize>::spec_from_tokens(p) == (
            Outcome::Value(u as u64),
            1nat,
        ),
        !(u64::MIN <= u <= u64::MAX) ==> <u64 as StreamDeserialize>::spec_from_tokens(p) == (
            Outcome::<u64>::Rejected(ErrorView::OutOfBounds),
            1nat,
        ),
        usize::MIN <= u <= usize::MAX ==> <usize as StreamDeserialize>::spec_from_tokens(p) == (
            Outcome::Value(u as usize),
            1nat,
        ),
        !(usize::MIN <= u <= usize::MAX) ==> <usize as StreamDeserialize>::spec_from_tokens(p) == (
            Outcome::<usize>::Rejected(ErrorView::OutOfBounds),
            1nat,
        ),
        u128::MIN <= u <= u128::MAX ==> <u128 as StreamDeserialize>::spec_from_tokens(p) == (
            Outcome::Value(u as u128),
            1nat,
        ),
        !(u128::MIN <= u <= u128::MAX) ==> <u128 as StreamDeserialize>::spec_from_tokens(p) == (
            Outcome::<u128>::Rejected(ErrorView::OutOfBounds),
            1nat,
        ),
{
}

/// No integer type reads a float: a number token holding one is refused as an
/// unsupported conversion, taking the one token.
pub proof fn law_floats_are_not_integers(p: Pending, f: Seq<char>)
    requires
        p.len() > 0,
        p[0] == Some(TokenView::Number(NumberView::Float(f))),
    ensures
        <i8 as StreamDeserialize>::spec_from_tokens(p) == (
            Outcome::<i8>::Rejected(ErrorView::UnsupportedConversion),
            1nat,
        ),
        <i16 as StreamDeserialize>::spec_from_tokens(p) == (
            Outcome::<i16>::Rejected(ErrorView::UnsupportedConversion),
            1nat,
        ),
        <i32 as StreamDeserialize>::spec_from_tokens(p) == (
            Outcome::<i32>::Rejected(ErrorView::UnsupportedConversion),
            1nat,
        ),
        <i64 as StreamDeserialize>::spec_from_tokens(p) == (
            Outcome::<i64>::Rejected(ErrorView::UnsupportedConversion),
            1nat,
        ),
        <isize as StreamDeserialize>::spec_from_tokens(p) == (
            Outcome::<isize>::Rejected(ErrorView::UnsupportedConversion),
            1nat,
        ),
        <i128 as StreamDeserialize>::spec_from_tokens(p) == (
            Outcome::<i128>::Rejected(ErrorView::UnsupportedConversion),
            1nat,
        ),
        <u8 as StreamDeserialize>::spec_from_tokens(p) == (
            Outcome::<u8>::Rejected(ErrorView::UnsupportedConversion),
            1nat,
        ),
        <u16 as StreamDeserialize>::spec_from_tokens(p) == (
            Outcome::<u16>::Rejected(ErrorView::UnsupportedConversion),
            1nat,
        ),
        <u32 as StreamDeserialize>::spec_from_tokens(p) == (
            Outcome::<u32>::Rejected(ErrorView::UnsupportedConversion),
            1nat,
        ),
        <u64 as StreamDeserialize>::spec_from_tokens(p) == (
            Outcome::<u64>::Rejected(ErrorView::UnsupportedConversion),
            1nat,
        ),
        <usize as StreamDeserialize>::spec_from_tokens(p) == (
            Outcome::<usize>::Rejected(ErrorView::UnsupportedConversion),
            1nat,
        ),
        <u128 as StreamDeserialize>::spec_from_tokens(p) == (
            Outcome::<u128>::Rejected(ErrorView::UnsupportedConversion),
            1nat,
        ),
{
}

/// `Option<E>` reads `null` as `None`, taking its token; any other token starts
/// an `E`, read as `E` reads it: a value `v` gives `Some(v)`, a failure is the
/// same failure, and the same entries are taken.
pub proof fn law_option_reads_null_or_inner<E: StreamDeserialize>(p: Pending)
    ensures
        head(p) == Some(TokenView::Null) ==> <Option<E> as StreamDeserialize>::spec_from_tokens(p)
            == (Outcome::<Option<<E as DeepView>::V>>::Value(None), 1nat),
        head(p) matches Some(t) && t != TokenView::Null ==> {
            let (o, n) = <Option<E> as StreamDeserialize>::spec_from_tokens(p);
            let (oe, ne) = E::spec_from_tokens(p);
            &&& n == ne
            &&& (oe matches Outcome::Value(v) ==> o == Outcome::Value(Some(v)))
            &&& (oe matches Outcome::Rejected(e) ==> o == Outcome::<
                Option<<E as DeepView>::V>,
            >::Rejected(e))
            &&& (oe is TokenizerFailed ==> o is TokenizerFailed)
        },
{
}

/// The one-token types read the token they stand for and refuse any other,
/// naming what was asked for and the token found; either way they take one
/// entry. `bool` reads a boolean, `String` a string, `()` `null`, and `char` a
/// string of exactly one character.
pub proof fn law_one_token_types_read(p: Pending, t: TokenView)
    requires
        p.len() > 0,
        p[0] == Some(t),
    ensures
        <bool as StreamDeserialize>::spec_from_tokens(p) == (match t {
            TokenView::Bool(b) => Outcome::Value(b),
            _ => Outcome::Rejected(
                ErrorView::InvalidValue("expected bool, found "@ + token_text(t)),
            ),
        }, 1nat),
        <String as StreamDeserialize>::spec_from_tokens(p) == (match t {
            TokenView::String(s) => Outcome::Value(s),
            _ => Outcome::Rejected(
                ErrorView::InvalidValue("expected string, found "@ + token_text(t)),
            ),
        }, 1nat),
        <() as StreamDeserialize>::spec_from_tokens(p) == (match t {
            TokenView::Null => Outcome::Value(()),
            _ => Outcome::Rejected(
                ErrorView::InvalidValue("expected null, found "@ + token_text(t)),
            ),
        }, 1nat),
        <char as StreamDeserialize>::spec_from_tokens(p) == (match t {
            TokenView::String(s) => if s.len() == 1 {
                Outcome::Value(s[0])
            } else {
                Outcome::Rejected(ErrorView::InvalidValue("expected char, found "@ + token_text(t)))
            },
            _ => Outcome::Rejected(ErrorView::InvalidValue("expected char, found "@ + token_text(t))),
        }, 1nat),
{
    reveal_strlit("expected ");
    reveal_strlit(", found ");
    reveal_strlit("bool");
    reveal_strlit("string");
    reveal_strlit("null");
    reveal_strlit("char");
    reveal_strlit("expected bool, found ");
    reveal_strlit("expected string, found ");
    reveal_strlit("expected null, found ");
    reveal_strlit("expected char, found ");
    assert("expected "@ + "bool"@ + ", found "@ + token_text(t) =~= "expected bool, found "@
        + token_text(t));
    assert("expected "@ + "string"@ + ", found "@ + token_text(t) =~= "expected string, found "@
        + token_text(t));
    assert("expected "@ + "null"@ + ", found "@ + token_text(t) =~= "expected null, found "@
        + token_text(t));
    assert("expected "@ + "char"@ + ", found "@ + token_text(t) =~= "expected char, found "@
        + token_text(t));
}

/// A failed read fails every one-token type, taking the failing entry.
pub proof fn law_one_token_types_fail_with_the_tokenizer(p: Pending)
    requires
        p.len() > 0,
        p[0] is None,
    ensures
        <bool as StreamDeserialize>::spec_from_tokens(p) == (Outcome::<bool>::TokenizerFailed, 1nat),
        <String as StreamDeserialize>::spec_from_tokens(p) == (
            Outcome::<Seq<char>>::TokenizerFailed,
            1nat,
        ),
        <() as StreamDeserialize>::spec_from_tokens(p) == (Outcome::<()>::TokenizerFailed, 1nat),
        <char as StreamDeserialize>::spec_from_tokens(p) == (Outcome::<char>::TokenizerFailed, 1nat),
        <u8 as StreamDeserialize>::spec_from_tokens(p) == (Outcome::<u8>::TokenizerFailed, 1nat),
        <i64 as StreamDeserialize>::spec_from_tokens(p) == (Outcome::<i64>::TokenizerFailed, 1nat),
{
}

/// A box reads what its contents read.
pub proof fn law_box_reads_as_contents<E: StreamDeserialize>(p: Pending)
    ensures
        <Box<E> as StreamDeserialize>::spec_from_tokens(p) == E::spec_from_tokens(p),
{
}

/// The integer types refuse a token that is not a number, naming the type and
/// the token found, and take that token.
pub proof fn law_integers_refuse_other_tokens(p: Pending, t: TokenView)
    requires
        p.len() > 0,
        p[0] == Some(t),
        !(t is Number),
    ensures
        <i8 as StreamDeserialize>::spec_from_tokens(p) == (
            Outcome::<i8>::Rejected(ErrorView::InvalidValue("expected i8, found "@ + token_text(t))),
            1nat,
        ),
        <i16 as StreamDeserialize>::spec_from_tokens(p) == (
            Outcome::<i16>::Rejected(ErrorView::InvalidValue("expected i16, found "@ + token_text(t))),
            1nat,
        ),
        <i32 as StreamDeserialize>::spec_from_tokens(p) == (
            Outcome::<i32>::Rejected(ErrorView::InvalidValue("expected i32, found "@ + token_text(t))),
            1nat,
        ),
        <i64 as StreamDeserialize>::spec_from_tokens(p) == (
            Outcome::<i64>::Rejected(ErrorView::InvalidValue("expected i64, found "@ + token_text(t))),
            1nat,
        ),
        <isize as StreamDeserialize>::spec_from_tokens(p) == (
            Outcome::<isize>::Rejected(ErrorView::InvalidValue("expected isize, found "@ + token_text(t))),
            1nat,
        ),
        <i128 as StreamDeserialize>::spec_from_tokens(p) == (
            Outcome::<i128>::Rejected(ErrorView::InvalidValue("expected i128, found "@ + token_text(t))),
            1nat,
        ),
        <u8 as StreamDeserialize>::spec_from_tokens(p) == (
            Outcome::<u8>::Rejected(ErrorView::InvalidValue("expected u8, found "@ + token_text(t))),
            1nat,
        ),
        <u16 as StreamDeserialize>::spec_from_tokens(p) == (
            Outcome::<u16>::Rejected(ErrorView::InvalidValue("expected u16, found "@ + token_text(t))),
            1nat,
        ),
        <u32 as StreamDeserialize>::spec_from_tokens(p) == (
            Outcome::<u32>::Rejected(ErrorView::InvalidValue("expected u32, found "@ + token_text(t))),
            1nat,
        ),
        <u64 as StreamDeserialize>::spec_from_tokens(p) == (
            Outcome::<u64>::Rejected(ErrorView::InvalidValue("expected u64, found "@ + token_text(t))),
            1nat,
        ),
        <usize as StreamDeserialize>::spec_from_tokens(p) == (
            Outcome::<usize>::Rejected(ErrorView::InvalidValue("expected usize, found "@ + token_text(t))),
            1nat,
        ),
        <u128 as StreamDeserialize>::spec_from_tokens(p) == (
            Outcome::<u128>::Rejected(ErrorView::InvalidValue("expected u128, found "@ + token_text(t))),
            1nat,
        ),
{
    reveal_strlit("expected ");
    reveal_strlit(", found ");
    reveal_strlit("i8");
    reveal_strlit("expected i8, found ");
    assert("expected "@ + "i8"@ + ", found "@ + token_text(t) =~= "expected i8, found "@
        + token_text(t));
    reveal_strlit("i16");
    reveal_strlit("expected i16, found ");
    assert("expected "@ + "i16"@ + ", found "@ + token_text(t) =~= "expected i16, found "@
        + token_text(t));
    reveal_strlit("i32");
    reveal_strlit("expected i32, found ");
    assert("expected "@ + "i32"@ + ", found "@ + token_text(t) =~= "expected i32, found "@
        + token_text(t));
    reveal_strlit("i64");
    reveal_strlit("expected i64, found ");
    assert("expected "@ + "i64"@ + ", found "@ + token_text(t) =~= "expected i64, found "@
        + token_text(t));
    reveal_strlit("isize");
    reveal_strlit("expected isize, found ");
    assert("expected "@ + "isize"@ + ", found "@ + token_text(t) =~= "expected isize, found "@
        + token_text(t));
    reveal_strlit("i128");
    reveal_strlit("expected i128, found ");
    assert("expected "@ + "i128"@ + ", found "@ + token_text(t) =~= "expected i128, found "@
        + token_text(t));
    reveal_strlit("u8");
    reveal_strlit("expected u8, found ");
    assert("expected "@ + "u8"@ + ", found "@ + token_text(t) =~= "expected u8, found "@
        + token_text(t));
    reveal_strlit("u16");
    reveal_strlit("expected u16, found ");
    assert("expected "@ + "u16"@ + ", found "@ + token_text(t) =~= "expected u16, found "@
        + token_text(t));
    reveal_strlit("u32");
    reveal_strlit("expected u32, found ");
    assert("expected "@ + "u32"@ + ", found "@ + token_text(t) =~= "expected u32, found "@
        + token_text(t));
    reveal_strlit("u64");
    reveal_strlit("expected u64, found ");
    assert("expected "@ + "u64"@ + ", found "@ + token_text(t) =~= "expected u64, found "@
        + token_text(t));
    reveal_strlit("usize");
    reveal_strlit("expected usize, found ");
    assert("expected "@ + "usize"@ + ", found "@ + token_text(t) =~= "expected usize, found "@
        + token_text(t));
    reveal_strlit("u128");
    reveal_strlit("expected u128, found ");
    assert("expected "@ + "u128"@ + ", found "@ + token_text(t) =~= "expected u128, found "@
        + token_text(t));
}

/// A `Vec` and a fixed-size array refuse a token other than an array's start,
/// taking that token.
pub proof fn law_arrays_need_array_start<E: StreamDeserialize, const N: usize>(p: Pending, t: TokenView)
    requires
        p.len() > 0,
        p[0] == Some(t),
        !(t is ArrayStart),
    ensures
        <Vec<E> as StreamDeserialize>::spec_from_tokens(p) == (
            Outcome::<Seq<<E as DeepView>::V>>::Rejected(
                ErrorView::InvalidValue("expected array, found "@ + token_text(t)),
            ),
            1nat,
        ),
        <[E; N] as StreamDeserialize>::spec_from_tokens(p) == (
            Outcome::<Seq<<E as DeepView>::V>>::Rejected(
                ErrorView::InvalidValue("expected array, found "@ + token_text(t)),
            ),
            1nat,
        ),
{
    reveal_strlit("expected ");
    reveal_strlit(", found ");
    reveal_strlit("array");
    reveal_strlit("expected array, found ");
    assert("expected "@ + "array"@ + ", found "@ + token_text(t) =~= "expected array, found "@
        + token_text(t));
}

/// An array whose first element `E` refuses is refused by `Vec<E>` with the
/// same error, taking the array's start and what the element took.
pub proof fn law_vec_passes_element_errors_on<E: StreamDeserialize>(p: Pending)
    requires
        p.len() >= 2,
        p[0] == Some(TokenView::ArrayStart),
        p[1] matches Some(t) && t != TokenView::ArrayEnd,
        E::spec_from_tokens(p.skip(1)).0 is Rejected,
    ensures
        <Vec<E> as StreamDeserialize>::spec_from_tokens(p) == (
            Outcome::<Seq<<E as DeepView>::V>>::Rejected(E::spec_from_tokens(p.skip(1)).0->Rejected_0),
            E::spec_from_tokens(p.skip(1)).1 + 1,
        ),
{
    assert(p.skip(1) =~= p.drop_first());
    assert(p.drop_first()[0] == p[1]);
}

/// Reading the rest of an array for a `Vec` gives at least the elements read so
/// far, and more when the array does not end right away.
proof fn lemma_vec_items_grow<E: StreamDeserialize>(p: Pending, acc: Seq<<E as DeepView>::V>)
    ensures
        vec_items::<E>(p, acc).0 matches Outcome::Value(s) ==> s.len() >= acc.len() && (!(head(p)
            matches Some(TokenView::ArrayEnd)) ==> s.len() > acc.len()),
    decreases p.len(),
{
    if let Some(t) = head(p) {
        if !(t is ArrayEnd) {
            let (o, n) = E::spec_from_tokens(p);
            if let Outcome::Value(v) = o {
                if 1 <= n <= p.len() {
                    lemma_vec_items_grow::<E>(p.skip(n as int), acc.push(v));
                }
            }
        }
    }
}

proof fn lemma_array_items_agree<E: StreamDeserialize>(
    p: Pending,
    left: nat,
    acc: Seq<<E as DeepView>::V>,
    len: nat,
)
    requires
        acc.len() + left == len,
    ensures
        vec_items::<E>(p, acc).0 matches Outcome::Value(s) && s.len() == len ==> array_items::<E>(
            p,
            left,
            acc,
            len,
        ) == vec_items::<E>(p, acc),
        array_items::<E>(p, left, acc, len).0 is Value ==> array_items::<E>(p, left, acc, len)
            == vec_items::<E>(p, acc),
        vec_items::<E>(p, acc).0 matches Outcome::Value(s) && s.len() != len ==> array_items::<E>(
            p,
            left,
            acc,
            len,
        ).0 is Rejected,
    decreases left,
{
    lemma_vec_items_grow::<E>(p, acc);
    if left > 0 {
        if let Some(t) = head(p) {
            if !(t is ArrayEnd) {
                let (o, n) = E::spec_from_tokens(p);
                if let Outcome::Value(v) = o {
                    if 1 <= n <= p.len() {
                        lemma_array_items_agree::<E>(
                            p.skip(n as int),
                            (left - 1) as nat,
                            acc.push(v),
                            len,
                        );
                    }
                }
            }
        }
    }
}

/// A fixed-size array of `N` elements reads as a `Vec` does when the array in
/// the input has `N` elements (the same elements, taking the same tokens), and
/// is rejected when it has another number of elements.
pub proof fn law_fixed_array_agrees_with_vec<E: StreamDeserialize, const N: usize>(p: Pending)
    ensures
        <Vec<E> as StreamDeserialize>::spec_from_tokens(p).0 matches Outcome::Value(s) && s.len()
            == N ==> <[E; N] as StreamDeserialize>::spec_from_tokens(p) == <Vec<
            E,
        > as StreamDeserialize>::spec_from_tokens(p),
        <[E; N] as StreamDeserialize>::spec_from_tokens(p).0 is Value ==> <[
            E;
            N] as StreamDeserialize>::spec_from_tokens(p) == <Vec<
            E,
        > as StreamDeserialize>::spec_from_tokens(p),
        <Vec<E> as StreamDeserialize>::spec_from_tokens(p).0 matches Outcome::Value(s) && s.len()
            != N ==> <[E; N] as StreamDeserialize>::spec_from_tokens(p).0 is Rejected,
{
    if let Some(TokenView::ArrayStart) = head(p) {
        lemma_array_items_agree::<E>(p.drop_first(), N as nat, seq![], N as nat);
    }
}

/// Reading the elements `vs[j..]` of an array, each element one entry read as
/// a `E` gives, then its end.
proof fn lemma_vec_items_each<E: StreamDeserialize>(p: Pending, vs: Seq<<E as DeepView>::V>, j: nat)
    requires
        p.len() >= vs.len() + 2,
        p[vs.len() + 1int] == Some(TokenView::ArrayEnd),
        forall|i: int|
            0 <= i < vs.len() ==> #[trigger] p[i + 1] is Some && p[i + 1] != Some(TokenView::ArrayEnd),
        forall|i: int|
            0 <= i < vs.len() ==> #[trigger] E::spec_from_tokens(p.skip(i + 1)) == (
                Outcome::Value(vs[i]),
                1nat,
            ),
        j <= vs.len(),
    ensures
        vec_items::<E>(p.skip(1 + j as int), vs.take(j as int)) == (
            Outcome::Value(vs),
            (vs.len() - j + 1) as nat,
        ),
    decreases vs.len() - j,
{
    let q = p.skip(1 + j as int);
    assert(q[0] == p[1 + j as int]);
    if j == vs.len() {
        assert(vs.take(j as int) =~= vs);
    } else {
        assert(E::spec_from_tokens(p.skip(j + 1int)) == (Outcome::Value(vs[j as int]), 1nat));
        assert(q.skip(1) =~= p.skip(1 + (j + 1int)));
        assert(vs.take(j as int).push(vs[j as int]) =~= vs.take(j + 1int));
        lemma_vec_items_each::<E>(p, vs, j + 1);
    }
}

/// An array whose elements are each one entry that `E` reads as a value reads,
/// as a `Vec<E>`, as those values in order, taking the array's tokens; as a
/// `[E; N]` it reads the same when it has `N` elements.
pub proof fn law_vec_reads_each_element<E: StreamDeserialize, const N: usize>(
    p: Pending,
    vs: Seq<<E as DeepView>::V>,
)
    requires
        p.len() >= vs.len() + 2,
        p[0] == Some(TokenView::ArrayStart),
        p[vs.len() + 1int] == Some(TokenView::ArrayEnd),
        forall|i: int|
            0 <= i < vs.len() ==> #[trigger] p[i + 1] is Some && p[i + 1] != Some(TokenView::ArrayEnd),
        forall|i: int|
            0 <= i < vs.len() ==> #[trigger] E::spec_from_tokens(p.skip(i + 1)) == (
                Outcome::Value(vs[i]),
                1nat,
            ),
    ensures
        <Vec<E> as StreamDeserialize>::spec_from_tokens(p) == (
            Outcome::Value(vs),
            (vs.len() + 2) as nat,
        ),
        vs.len() == N ==> <[E; N] as StreamDeserialize>::spec_from_tokens(p) == (
            Outcome::Value(vs),
            (vs.len() + 2) as nat,
        ),
{
    lemma_vec_items_each::<E>(p, vs, 0);
    assert(p.skip(1) =~= p.drop_first());
    assert(vs.take(0) =~= Seq::<<E as DeepView>::V>::empty());
    law_fixed_array_agrees_with_vec::<E, N>(p);
}

} // verus!
