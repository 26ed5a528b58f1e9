//! Streaming deserialization support.
//!
//! Values are deserialized directly from a stream of tokens, without an
//! intermediate representation.
use vstd::prelude::*;

use crate::error::{Error, ErrorView};
use crate::text::{push_str, push_string};
use crate::token::{token_text, Token, TokenView};

verus! {

/// Error type for streaming operations.
#[derive(Debug, Clone)]
pub enum StreamError {
    /// IO error
    Io(String),
    /// JSON parsing error
    Parse(String),
    /// Unexpected token
    UnexpectedToken { expected: String, found: Token },
    /// Unexpected end of input
    UnexpectedEof,
    /// Invalid JSON structure
    InvalidJson(String),
}

/// The model of a [`StreamError`].
pub enum StreamErrorView {
    Io(Seq<char>),
    Parse(Seq<char>),
    UnexpectedToken { expected: Seq<char>, found: TokenView },
    UnexpectedEof,
    InvalidJson(Seq<char>),
}

impl View for StreamError {
    type V = StreamErrorView;

    open spec fn view(&self) -> StreamErrorView {
        match self {
            StreamError::Io(m) => StreamErrorView::Io(m@),
            StreamError::Parse(m) => StreamErrorView::Parse(m@),
            StreamError::UnexpectedToken { expected, found } => StreamErrorView::UnexpectedToken {
                expected: expected@,
                found: found@,
            },
            StreamError::UnexpectedEof => StreamErrorView::UnexpectedEof,
            StreamError::InvalidJson(m) => StreamErrorView::InvalidJson(m@),
        }
    }
}

/// The text by which a stream error is shown.
pub open spec fn stream_error_text(e: StreamErrorView) -> Seq<char> {
    match e {
        StreamErrorView::Io(m) => "IO error: "@ + m,
        StreamErrorView::Parse(m) => "Parse error: "@ + m,
        StreamErrorView::UnexpectedToken { expected, found } => "Expected "@ + expected + ", found "@
            + token_text(found),
        StreamErrorView::UnexpectedEof => "Unexpected end of input"@,
        StreamErrorView::InvalidJson(m) => "Invalid JSON: "@ + m,
    }
}

impl StreamError {
    /// The text by which this error is shown.
    pub fn display_text(&self) -> (s: String)
        ensures
            s@ == stream_error_text(self@),
    {
        let mut s = String::new();
        match self {
            StreamError::Io(m) => {
                push_str(&mut s, "IO error: ");
                push_string(&mut s, m);
            },
            StreamError::Parse(m) => {
                push_str(&mut s, "Parse error: ");
                push_string(&mut s, m);
            },
            StreamError::UnexpectedToken { expected, found } => {
                push_str(&mut s, "Expected ");
                push_string(&mut s, expected);
                push_str(&mut s, ", found ");
                found.write_text(&mut s);
            },
            StreamError::UnexpectedEof => push_str(&mut s, "Unexpected end of input"),
            StreamError::InvalidJson(m) => {
                push_str(&mut s, "Invalid JSON: ");
                push_string(&mut s, m);
            },
        }
        assert(s@ =~= stream_error_text(self@));
        s
    }
}

impl From<StreamError> for Error {
    /// A stream error becomes a custom error that carries its text.
    fn from(err: StreamError) -> (e: Error)
        ensures
            e@ == ErrorView::Custom(stream_error_text(err@)),
    {
        Error::custom(err.display_text())
    }
}

impl vstd::std_specs::convert::FromSpecImpl<StreamError> for Error {
    open spec fn obeys_from_spec() -> bool {
        false
    }

    /// Not claimed (see `obeys_from_spec`): the conversion is stated over views by the
    /// contract of `from` itself.
    open spec fn from_spec(v: StreamError) -> Error {
        choose|e: Error| e@ == ErrorView::Custom(stream_error_text(v@))
    }
}

/// What a tokenizer will hand out, from its current state on: one entry per
/// token before the end of input, `None` where reading fails. After the last
/// entry, every read gives `Token::Eof`.
pub type Pending = Seq<Option<TokenView>>;

/// The result of the next read from a tokenizer whose pending entries are `p`.
pub open spec fn head(p: Pending) -> Option<TokenView> {
    if p.len() == 0 {
        Some(TokenView::Eof)
    } else {
        p[0]
    }
}

/// The pending entries after one read.
pub open spec fn rest(p: Pending) -> Pending {
    if p.len() == 0 {
        p
    } else {
        p.drop_first()
    }
}

/// How many pending entries one read takes.
pub open spec fn used(p: Pending) -> nat {
    if p.len() == 0 {
        0
    } else {
        1
    }
}

/// Trait for tokenizing input streams.
///
/// A tokenizer is modelled by the entries it has still to hand out (`pending`)
/// and, for an entry where reading fails, the view of the error that reading
/// gives (`error_at`). Reading takes the first entry; peeking at a token leaves
/// it in place, while a failed peek takes the failing entry as a read does.
pub trait Tokenizer {
    /// Error type for tokenization failures.
    type Error: View;

    /// The entries this tokenizer will hand out.
    spec fn pending(&self) -> Pending;

    /// The view of the error that reading the pending entry `i` gives, where
    /// that entry is a failure (elsewhere it means nothing).
    spec fn error_at(&self, i: nat) -> <Self::Error as View>::V;

    /// Get the next token from the stream.
    fn next_token(&mut self) -> (r: Result<Token, Self::Error>)
        ensures
            final(self).pending() == rest(old(self).pending()),
            forall|i: nat|
                #[trigger] final(self).error_at(i) == old(self).error_at(i + used(old(self).pending())),
            (match r {
                Ok(t) => head(old(self).pending()) == Some(t@),
                Err(e) => head(old(self).pending()) is None && e@ == old(self).error_at(0),
            }),
    ;

    /// Peek at the next token without consuming it.
    fn peek_token(&mut self) -> (r: Result<&Token, Self::Error>)
        ensures
            (match r {
                Ok(t) => head(old(self).pending()) == Some(t@) && final(self).pending()
                    == old(self).pending() && forall|i: nat|
                    #[trigger] final(self).error_at(i) == old(self).error_at(i),
                Err(e) => head(old(self).pending()) is None && e@ == old(self).error_at(0)
                    && final(self).pending() == rest(old(self).pending()) && forall|i: nat|
                    #[trigger] final(self).error_at(i) == old(self).error_at(i + 1),
            }),
    ;

    /// Expect a specific token, consuming it if it matches. A token that does
    /// not match is left in place; a failed read is taken as `next_token` takes
    /// it, and its error returned.
    fn expect_token(&mut self, expected: Token) -> (r: Result<(), Self::Error>)
        ensures
            r is Ok <==> head(old(self).pending()) == Some(expected@),
            (match head(old(self).pending()) {
                Some(t) => if t == expected@ {
                    final(self).pending() == rest(old(self).pending())
                } else {
                    final(self).pending() == old(self).pending()
                },
                None => final(self).pending() == rest(old(self).pending()) && (r matches Err(e)
                    && e@ == old(self).error_at(0)),
            }),
    ;

    /// Expect and consume a key, returning the key string.
    fn expect_key(&mut self) -> (r: Result<String, Self::Error>)
        ensures
            final(self).pending() == rest(old(self).pending()),
            (match r {
                Ok(k) => head(old(self).pending()) == Some(TokenView::String(k@)),
                Err(e) => !(head(old(self).pending()) matches Some(TokenView::String(_))) && (head(
                    old(self).pending(),
                ) is None ==> e@ == old(self).error_at(0)),
            }),
    ;
}

/// Whether `y` is what a tokenizer error whose view is `x` becomes by
/// `Into<Error>`.
pub open spec fn converted<T: Tokenizer>(x: <T::Error as View>::V, y: Error) -> bool where
    T::Error: Into<Error>,
 {
    exists|e: T::Error|
        #![trigger call_ensures(<T::Error as Into<Error>>::into, (e,), y)]
        e@ == x && call_ensures(<T::Error as Into<Error>>::into, (e,), y)
}

/// Convert a tokenizer's error into an `Error`, by `Into<Error>`.
pub fn convert_error<T: Tokenizer>(e: T::Error) -> (y: Error) where T::Error: Into<Error>,
    ensures
        converted::<T>(e@, y),
{
    let ghost g = e;
    let into = <T::Error as Into<Error>>::into;
    let y = into(e);
    assert(call_ensures(<T::Error as Into<Error>>::into, (g,), y));
    y
}

/// How reading a value from a tokenizer ends.
pub enum Outcome<V> {
    /// A value was read.
    Value(V),
    /// The tokens do not form what was asked for: this error is returned.
    Rejected(ErrorView),
    /// Reading the last entry taken failed: the tokenizer's error, converted by
    /// `Into<Error>`, is returned.
    TokenizerFailed,
}

/// Whether `r` is the result of reading `read` (an outcome and the number of
/// entries taken) from the tokenizer `t`.
pub open spec fn result_fits<V: DeepView, T: Tokenizer>(
    r: Result<V, Error>,
    read: (Outcome<V::V>, nat),
    t: T,
) -> bool where T::Error: Into<Error> {
    match read.0 {
        Outcome::Value(w) => r matches Ok(v) && v.deep_view() == w,
        Outcome::Rejected(e) => r matches Err(x) && x@ == e,
        Outcome::TokenizerFailed => read.1 >= 1 && (r matches Err(y) && converted::<T>(
            t.error_at((read.1 - 1) as nat),
            y,
        )),
    }
}

/// Whether `r`, a result without a value, is the result of reading `read` (an
/// outcome and the number of entries taken) from the tokenizer `t`.
pub open spec fn unit_fits<T: Tokenizer>(r: Result<(), Error>, read: (Outcome<()>, nat), t: T) -> bool where
    T::Error: Into<Error>,
 {
    match read.0 {
        Outcome::Value(_) => r is Ok,
        Outcome::Rejected(e) => r matches Err(x) && x@ == e,
        Outcome::TokenizerFailed => read.1 >= 1 && (r matches Err(y) && converted::<T>(
            t.error_at((read.1 - 1) as nat),
            y,
        )),
    }
}

/// The same failure, for another type of value.
pub open spec fn failure<A, B>(o: Outcome<A>) -> Outcome<B> {
    match o {
        Outcome::Rejected(e) => Outcome::Rejected(e),
        _ => Outcome::TokenizerFailed,
    }
}

/// Skipping one value: its outcome, and how many pending entries it takes.
pub open spec fn skip_spec(p: Pending) -> (Outcome<()>, nat)
    decreases p.len(), 0nat,
{
    match head(p) {
        None => (Outcome::TokenizerFailed, used(p)),
        Some(t) => match t {
            TokenView::Null | TokenView::Bool(_) | TokenView::Number(_) | TokenView::String(_) => (
                Outcome::Value(()),
                used(p),
            ),
            TokenView::ObjectStart => {
                let (o, n) = skip_object_rest(p.drop_first());
                (o, n + 1)
            },
            TokenView::ArrayStart => {
                let (o, n) = skip_array_rest(p.drop_first());
                (o, n + 1)
            },
            _ => (Outcome::Rejected(ErrorView::InvalidValue("value"@)), used(p)),
        },
    }
}

/// Skipping the members of an object, after its start.
pub open spec fn skip_object_rest(p: Pending) -> (Outcome<()>, nat)
    decreases p.len(), 1nat,
{
    match head(p) {
        None => (Outcome::TokenizerFailed, used(p)),
        Some(TokenView::ObjectEnd) => (Outcome::Value(()), used(p)),
        Some(TokenView::Key(_)) | Some(TokenView::String(_)) => {
            let q = p.drop_first();
            let (o, n) = skip_spec(q);
            if (o is Value) && n <= q.len() {
                let (o2, n2) = skip_object_rest(q.skip(n as int));
                (o2, 1 + n + n2)
            } else {
                (o, 1 + n)
            }
        },
        Some(_) => (Outcome::Rejected(ErrorView::InvalidValue("object key or end"@)), used(p)),
    }
}

/// Skipping the elements of an array, after its start.
pub open spec fn skip_array_rest(p: Pending) -> (Outcome<()>, nat)
    decreases p.len(), 1nat,
{
    match head(p) {
        None => (Outcome::TokenizerFailed, used(p)),
        Some(TokenView::ArrayEnd) => (Outcome::Value(()), used(p)),
        Some(_) => {
            let (o, n) = skip_spec(p);
            if (o is Value) && 1 <= n <= p.len() {
                let (o2, n2) = skip_array_rest(p.skip(n as int));
                (o2, n + n2)
            } else {
                (o, n)
            }
        },
    }
}

/// Skipping takes no more entries than are pending, and at least one when it succeeds.
pub proof fn lemma_skip_bounds(p: Pending)
    ensures
        skip_spec(p).1 <= p.len(),
        !(skip_spec(p).0 is Rejected) ==> skip_spec(p).1 >= 1,
    decreases p.len(), 0nat,
{
    match head(p) {
        Some(TokenView::ObjectStart) => lemma_skip_object_bounds(p.drop_first()),
        Some(TokenView::ArrayStart) => lemma_skip_array_bounds(p.drop_first()),
        _ => {},
    }
}

proof fn lemma_skip_object_bounds(p: Pending)
    ensures
        skip_object_rest(p).1 <= p.len(),
    decreases p.len(), 1nat,
{
    if let Some(TokenView::Key(_)) | Some(TokenView::String(_)) = head(p) {
        let q = p.drop_first();
        lemma_skip_bounds(q);
        let (o, n) = skip_spec(q);
        if (o is Value) && n <= q.len() {
            lemma_skip_object_bounds(q.skip(n as int));
        }
    }
}

proof fn lemma_skip_array_bounds(p: Pending)
    ensures
        skip_array_rest(p).1 <= p.len(),
    decreases p.len(), 1nat,
{
    match head(p) {
        None => {},
        Some(TokenView::ArrayEnd) => {},
        Some(_) => {
            lemma_skip_bounds(p);
            let (o, n) = skip_spec(p);
            if (o is Value) && 1 <= n <= p.len() {
                lemma_skip_array_bounds(p.skip(n as int));
            }
        },
    }
}

/// A scalar (`null`, a boolean, a number or a string) is a whole value: skipping
/// it succeeds and takes exactly its token.
pub proof fn law_skip_scalar(p: Pending)
    requires
        p.len() > 0,
        p[0] matches Some(t) && (t is Null || t is Bool || t is Number || t is String),
    ensures
        skip_spec(p) == (Outcome::<()>::Value(()), 1nat),
{
}

/// An empty object or array is a whole value: skipping it takes its two tokens.
pub proof fn law_skip_empty_container(p: Pending)
    requires
        p.len() >= 2,
        (p[0] == Some(TokenView::ObjectStart) && p[1] == Some(TokenView::ObjectEnd)) || (p[0] == Some(
            TokenView::ArrayStart,
        ) && p[1] == Some(TokenView::ArrayEnd)),
    ensures
        skip_spec(p) == (Outcome::<()>::Value(()), 2nat),
{
    assert(p.drop_first()[0] == p[1]);
}

/// Skipping what holds a whole value depends on nothing after it: the outcome
/// and the entries taken stay the same whatever follows.
pub proof fn law_skip_ignores_what_follows(p: Pending, r: Pending)
    requires
        skip_spec(p).0 is Value,
    ensures
        skip_spec(p + r) == skip_spec(p),
    decreases p.len(), 0nat,
{
    lemma_skip_bounds(p);
    assert(p.len() > 0);
    assert((p + r)[0] == p[0]);
    match head(p) {
        Some(TokenView::ObjectStart) => {
            assert((p + r).drop_first() =~= p.drop_first() + r);
            lemma_object_rest_ignores_what_follows(p.drop_first(), r);
        },
        Some(TokenView::ArrayStart) => {
            assert((p + r).drop_first() =~= p.drop_first() + r);
            lemma_array_rest_ignores_what_follows(p.drop_first(), r);
        },
        _ => {},
    }
}

proof fn lemma_object_rest_ignores_what_follows(p: Pending, r: Pending)
    requires
        skip_object_rest(p).0 is Value,
    ensures
        skip_object_rest(p + r) == skip_object_rest(p),
    decreases p.len(), 1nat,
{
    lemma_skip_object_bounds(p);
    assert(p.len() > 0);
    assert((p + r)[0] == p[0]);
    if let Some(TokenView::Key(_)) | Some(TokenView::String(_)) = head(p) {
        let q = p.drop_first();
        assert((p + r).drop_first() =~= q + r);
        lemma_skip_bounds(q);
        let (o, n) = skip_spec(q);
        law_skip_ignores_what_follows(q, r);
        assert((q + r).skip(n as int) =~= q.skip(n as int) + r);
        lemma_object_rest_ignores_what_follows(q.skip(n as int), r);
    }
}

proof fn lemma_array_rest_ignores_what_follows(p: Pending, r: Pending)
    requires
        skip_array_rest(p).0 is Value,
    ensures
        skip_array_rest(p + r) == skip_array_rest(p),
    decreases p.len(), 1nat,
{
    lemma_skip_array_bounds(p);
    if p.len() == 0 {
        assert(skip_spec(p).0 is Rejected);
    }
    assert((p + r)[0] == p[0]);
    if !(head(p) == Some(TokenView::ArrayEnd)) {
        lemma_skip_bounds(p);
        let (o, n) = skip_spec(p);
        law_skip_ignores_what_follows(p, r);
        assert((p + r).skip(n as int) =~= p.skip(n as int) + r);
        lemma_array_rest_ignores_what_follows(p.skip(n as int), r);
    }
}

/// The entries of the values `vs`, one after another.
pub open spec fn flatten(vs: Seq<Pending>) -> Pending
    decreases vs.len(),
{
    if vs.len() == 0 {
        seq![]
    } else {
        vs[0] + flatten(vs.drop_first())
    }
}

/// The entries of the members of an object: each key `ks[i]`, as a string,
/// then its value `vs[i]`.
pub open spec fn members(ks: Seq<Seq<char>>, vs: Seq<Pending>) -> Pending
    decreases vs.len(),
{
    if vs.len() == 0 || ks.len() == 0 {
        seq![]
    } else {
        seq![Some(TokenView::String(ks[0]))] + vs[0] + members(ks.drop_first(), vs.drop_first())
    }
}

/// Whether `v` is the entries of exactly one value that skipping accepts.
pub open spec fn whole_value(v: Pending) -> bool {
    skip_spec(v) == (Outcome::<()>::Value(()), v.len())
}

proof fn lemma_array_rest_of_values(vs: Seq<Pending>, r: Pending)
    requires
        forall|i: int| 0 <= i < vs.len() ==> whole_value(#[trigger] vs[i]),
    ensures
        skip_array_rest(flatten(vs) + seq![Some(TokenView::ArrayEnd)] + r) == (
            Outcome::<()>::Value(()),
            flatten(vs).len() + 1,
        ),
    decreases vs.len(),
{
    let p = flatten(vs) + seq![Some(TokenView::ArrayEnd)] + r;
    if vs.len() == 0 {
        assert(p[0] == Some(TokenView::ArrayEnd));
    } else {
        let v = vs[0];
        let tail = flatten(vs.drop_first()) + seq![Some(TokenView::ArrayEnd)] + r;
        assert(whole_value(v));
        assert(p =~= v + tail);
        lemma_skip_bounds(v);
        assert(p[0] == v[0]);
        law_skip_ignores_what_follows(v, tail);
        assert(p.skip(v.len() as int) =~= tail);
        assert forall|i: int| 0 <= i < vs.drop_first().len() implies whole_value(
            #[trigger] vs.drop_first()[i],
        ) by {
            assert(vs.drop_first()[i] == vs[i + 1]);
        }
        lemma_array_rest_of_values(vs.drop_first(), r);
    }
}

proof fn lemma_object_rest_of_members(ks: Seq<Seq<char>>, vs: Seq<Pending>, r: Pending)
    requires
        ks.len() == vs.len(),
        forall|i: int| 0 <= i < vs.len() ==> whole_value(#[trigger] vs[i]),
    ensures
        skip_object_rest(members(ks, vs) + seq![Some(TokenView::ObjectEnd)] + r) == (
            Outcome::<()>::Value(()),
            members(ks, vs).len() + 1,
        ),
    decreases vs.len(),
{
    let p = members(ks, vs) + seq![Some(TokenView::ObjectEnd)] + r;
    if vs.len() == 0 {
        assert(p[0] == Some(TokenView::ObjectEnd));
    } else {
        let v = vs[0];
        let tail = members(ks.drop_first(), vs.drop_first()) + seq![Some(TokenView::ObjectEnd)] + r;
        assert(whole_value(v));
        assert(p =~= seq![Some(TokenView::String(ks[0]))] + (v + tail));
        assert(p[0] == Some(TokenView::String(ks[0])));
        assert(p.drop_first() =~= v + tail);
        lemma_skip_bounds(v);
        law_skip_ignores_what_follows(v, tail);
        assert((v + tail).skip(v.len() as int) =~= tail);
        assert forall|i: int| 0 <= i < vs.drop_first().len() implies whole_value(
            #[trigger] vs.drop_first()[i],
        ) by {
            assert(vs.drop_first()[i] == vs[i + 1]);
        }
        lemma_object_rest_of_members(ks.drop_first(), vs.drop_first(), r);
    }
}

/// An array of whole values is a whole value: skipping it succeeds and takes
/// its start, the values and its end, whatever follows.
pub proof fn law_skip_array_of_values(vs: Seq<Pending>, r: Pending)
    requires
        forall|i: int| 0 <= i < vs.len() ==> whole_value(#[trigger] vs[i]),
    ensures
        skip_spec(seq![Some(TokenView::ArrayStart)] + flatten(vs) + seq![Some(TokenView::ArrayEnd)] + r)
            == (Outcome::<()>::Value(()), flatten(vs).len() + 2),
{
    let p = seq![Some(TokenView::ArrayStart)] + flatten(vs) + seq![Some(TokenView::ArrayEnd)] + r;
    assert(p[0] == Some(TokenView::ArrayStart));
    assert(p.drop_first() =~= flatten(vs) + seq![Some(TokenView::ArrayEnd)] + r);
    lemma_array_rest_of_values(vs, r);
}

/// An object whose members are string keys, each followed by a whole value, is
/// a whole value: skipping it succeeds and takes its start, the members and its
/// end, whatever follows.
pub proof fn law_skip_object_of_members(ks: Seq<Seq<char>>, vs: Seq<Pending>, r: Pending)
    requires
        ks.len() == vs.len(),
        forall|i: int| 0 <= i < vs.len() ==> whole_value(#[trigger] vs[i]),
    ensures
        skip_spec(
            seq![Some(TokenView::ObjectStart)] + members(ks, vs) + seq![Some(TokenView::ObjectEnd)] + r,
        ) == (Outcome::<()>::Value(()), members(ks, vs).len() + 2),
{
    let p = seq![Some(TokenView::ObjectStart)] + members(ks, vs) + seq![Some(TokenView::ObjectEnd)]
        + r;
    assert(p[0] == Some(TokenView::ObjectStart));
    assert(p.drop_first() =~= members(ks, vs) + seq![Some(TokenView::ObjectEnd)] + r);
    lemma_object_rest_of_members(ks, vs, r);
}

/// What cannot begin a value (the end of an object or an array, a key, the
/// end of input) is refused as a value; a failed read is the tokenizer's
/// failure. Either way one entry is taken, none at the end of input.
pub proof fn law_skip_refuses_non_values(p: Pending)
    ensures
        head(p) matches Some(t) && (t is ObjectEnd || t is ArrayEnd || t is Key || t is Eof)
            ==> skip_spec(p) == (
            Outcome::<()>::Rejected(ErrorView::InvalidValue("value"@)),
            if p.len() == 0 {
                0nat
            } else {
                1nat
            },
        ),
        head(p) is None ==> skip_spec(p) == (Outcome::<()>::TokenizerFailed, 1nat),
{
}

/// Inside an object, a token that is neither a key nor the object's end is
/// refused, taking the object's start and that token.
pub proof fn law_skip_refuses_non_keys(p: Pending, t: TokenView)
    requires
        p.len() >= 2,
        p[0] == Some(TokenView::ObjectStart),
        p[1] == Some(t),
        !(t is Key || t is String || t is ObjectEnd),
    ensures
        skip_spec(p) == (
            Outcome::<()>::Rejected(ErrorView::InvalidValue("object key or end"@)),
            2nat,
        ),
{
    assert(p.drop_first()[0] == p[1]);
}

/// Skip a value in the token stream.
///
/// A scalar is one token; an object is its start, then keys (a `Token::Key`, or a
/// `Token::String` as the JSON tokenizer hands keys out) each followed by a
/// value, then its end; an array is its start, values, then its end. On a
/// failed read the tokenizer's error is returned, converted by `Into<Error>`,
/// and nothing more is read.
pub fn skip_value<T: Tokenizer>(tokenizer: &mut T) -> (r: Result<(), Error>) where
    T::Error: Into<Error>,

    ensures
        unit_fits::<T>(r, skip_spec(old(tokenizer).pending()), *old(tokenizer)),
        final(tokenizer).pending() == old(tokenizer).pending().skip(
            skip_spec(old(tokenizer).pending()).1 as int,
        ),
        forall|i: nat| #[trigger]
            final(tokenizer).error_at(i) == old(tokenizer).error_at(
                i + skip_spec(old(tokenizer).pending()).1,
            ),
    decreases old(tokenizer).pending().len(),
{
    let ghost p0 = tokenizer.pending();
    let ghost t0 = *tokenizer;
    proof {
        lemma_skip_bounds(p0);
    }
    let first = match tokenizer.next_token() {
        Ok(t) => t,
        Err(e) => {
            assert(rest(p0) =~= p0.skip(used(p0) as int));
            return Err(convert_error::<T>(e));
        },
    };
    match first {
        Token::Null | Token::Bool(_) | Token::Number(_) | Token::String(_) => {
            assert(rest(p0) =~= p0.skip(used(p0) as int));
            Ok(())
        },
        Token::ObjectStart => {
            let ghost mut k: nat = 1;
            assert(p0.skip(1) =~= p0.drop_first());
            loop
                invariant
                    p0 == old(tokenizer).pending(),
                    t0 == *old(tokenizer),
                    1 <= k <= p0.len(),
                    forall|i: nat| #[trigger] tokenizer.error_at(i) == t0.error_at(k + i),
                    tokenizer.pending() == p0.skip(k as int),
                    skip_spec(p0) == ({
                        let (o, n) = skip_object_rest(tokenizer.pending());
                        (o, k + n)
                    }),
                decreases tokenizer.pending().len(),
            {
                let ghost q = tokenizer.pending();
                proof {
                    lemma_skip_object_bounds(q);
                }
                match tokenizer.next_token() {
                    Ok(Token::ObjectEnd) => {
                        assert(p0.skip((k + 1) as int) =~= q.drop_first());
                        return Ok(());
                    },
                    Ok(Token::Key(_)) | Ok(Token::String(_)) => {
                        let ghost q1 = q.drop_first();
                        proof {
                            lemma_skip_bounds(q1);
                        }
                        let inner = skip_value(tokenizer);
                        let ghost n = skip_spec(q1).1;
                        assert(q1.skip(n as int) =~= p0.skip((k + 1 + n) as int));
                        match inner {
                            Ok(()) => {
                                proof {
                                    k = k + 1 + n;
                                }
                            },
                            Err(e) => {
                                return Err(e);
                            },
                        }
                    },
                    Ok(_) => {
                        assert(p0.skip((k + used(q)) as int) =~= rest(q));
                        return Err(Error::invalid_value_static("object key or end"));
                    },
                    Err(e) => {
                        assert(p0.skip((k + 1) as int) =~= q.drop_first());
                        return Err(convert_error::<T>(e));
                    },
                }
            }
        },
        Token::ArrayStart => {
            let ghost mut k: nat = 1;
            assert(p0.skip(1) =~= p0.drop_first());
            loop
                invariant
                    p0 == old(tokenizer).pending(),
                    t0 == *old(tokenizer),
                    1 <= k <= p0.len(),
                    forall|i: nat| #[trigger] tokenizer.error_at(i) == t0.error_at(k + i),
                    tokenizer.pending() == p0.skip(k as int),
                    skip_spec(p0) == ({
                        let (o, n) = skip_array_rest(tokenizer.pending());
                        (o, k + n)
                    }),
                decreases tokenizer.pending().len(),
            {
                let ghost q = tokenizer.pending();
                proof {
                    lemma_skip_array_bounds(q);
                    lemma_skip_bounds(q);
                }
                let at_end = match tokenizer.peek_token() {
                    Ok(Token::ArrayEnd) => true,
                    Ok(_) => false,
                    Err(e) => {
                        assert(p0.skip((k + 1) as int) =~= q.drop_first());
                        return Err(convert_error::<T>(e));
                    },
                };
                if at_end {
                    match tokenizer.next_token() {
                        Ok(_) => {},
                        Err(e) => {
                            return Err(convert_error::<T>(e));
                        },
                    }
                    assert(p0.skip((k + 1) as int) =~= q.drop_first());
                    return Ok(());
                }
                let inner = skip_value(tokenizer);
                let ghost n = skip_spec(q).1;
                assert(q.skip(n as int) =~= p0.skip((k + n) as int));
                match inner {
                    Ok(()) => {
                        proof {
                            k = k + n;
                        }
                    },
                    Err(e) => {
                        return Err(e);
                    },
                }
            }
        },
        _ => {
            assert(rest(p0) =~= p0.skip(used(p0) as int));
            Err(Error::invalid_value_static("value"))
        },
    }
}

/// Trait for types that can be deserialized from a token stream.
///
/// A type states, by `spec_from_tokens`, how reading a value from pending
/// entries ends and how many entries it takes; its values are compared by their
/// deep views (hence `DeepView`). Reading a value that succeeds, or that ends
/// on a failed read, takes at least one entry.
pub trait StreamDeserialize: Sized + DeepView {
    /// Reading a value from pending entries `p`: its outcome and how many
    /// entries it takes. A type that does not state it (one implemented outside
    /// verified code) is only known to take no more entries than are pending, and
    /// at least one unless it rejects the tokens.
    open spec fn spec_from_tokens(p: Pending) -> (Outcome<<Self as DeepView>::V>, nat) {
        choose|o: (Outcome<<Self as DeepView>::V>, nat)|
            o.1 <= p.len() && (!(o.0 is Rejected) ==> o.1 >= 1)
    }

    /// Deserialize from a token stream. On a failed read the tokenizer's error,
    /// converted by `Into<Error>`, is returned, and nothing more is read.
    fn deserialize_from_tokens<T: Tokenizer>(tokenizer: &mut T) -> (r: Result<Self, Error>) where
        T::Error: Into<Error>,

        ensures
            result_fits::<Self, T>(
                r,
                Self::spec_from_tokens(old(tokenizer).pending()),
                *old(tokenizer),
            ),
            final(tokenizer).pending() == old(tokenizer).pending().skip(
                Self::spec_from_tokens(old(tokenizer).pending()).1 as int,
            ),
            forall|i: nat| #[trigger]
                final(tokenizer).error_at(i) == old(tokenizer).error_at(
                    i + Self::spec_from_tokens(old(tokenizer).pending()).1,
                ),
            Self::spec_from_tokens(old(tokenizer).pending()).1 <= old(tokenizer).pending().len(),
            !(Self::spec_from_tokens(old(tokenizer).pending()).0 is Rejected)
                ==> Self::spec_from_tokens(old(tokenizer).pending()).1 >= 1,
    ;
}

/// The error for a token other than the one asked for.
pub open spec fn expected_error(what: Seq<char>, t: TokenView) -> ErrorView {
    ErrorView::InvalidValue("expected "@ + what + ", found "@ + token_text(t))
}

/// The error for a token other than the one asked for (`what` names it).
pub fn expected_found(what: &str, token: &Token) -> (e: Error)
    ensures
        e@ == expected_error(what@, token@),
{
    let mut m = "expected ".to_owned();
    push_str(&mut m, what);
    push_str(&mut m, ", found ");
    token.write_text(&mut m);
    assert(m@ =~= "expected "@ + what@ + ", found "@ + token_text(token@));
    Error::invalid_value(m)
}

} // verus!
