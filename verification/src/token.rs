//! Tokens of the input stream and their texts.
use vstd::prelude::*;

use crate::text::{decimal, push_char, push_decimal, push_signed_decimal, push_str, push_string, signed_decimal};

verus! {

/// A JSON number as it appears in the input.
///
/// Integers are held by value. A number with a fraction or an exponent is held
/// by its text (its lexeme), which follows the syntax of a decimal floating
/// point literal; turning it into a binary float is left to the caller.
#[derive(Debug, Clone, PartialEq)]
pub enum Number {
    /// A number with a fraction or an exponent, by its text.
    Float(String),
    /// A negative integer.
    SignedInt(i64),
    /// A non-negative integer.
    UnsignedInt(u64),
}

/// The model of a [`Number`].
pub enum NumberView {
    Float(Seq<char>),
    SignedInt(i64),
    UnsignedInt(u64),
}

impl View for Number {
    type V = NumberView;

    open spec fn view(&self) -> NumberView {
        match self {
            Number::Float(s) => NumberView::Float(s@),
            Number::SignedInt(i) => NumberView::SignedInt(*i),
            Number::UnsignedInt(u) => NumberView::UnsignedInt(*u),
        }
    }
}

/// A token in the input stream.
#[derive(Debug, Clone, PartialEq)]
pub enum Token {
    /// Null value
    Null,
    /// Boolean value
    Bool(bool),
    /// Numeric value
    Number(Number),
    /// String value
    String(String),
    /// Start of an object `{`
    ObjectStart,
    /// End of an object `}`
    ObjectEnd,
    /// Start of an array `[`
    ArrayStart,
    /// End of an array `]`
    ArrayEnd,
    /// Object key
    Key(String),
    /// End of input
    Eof,
}

/// The model of a [`Token`]: strings are taken by their characters.
pub enum TokenView {
    Null,
    Bool(bool),
    Number(NumberView),
    String(Seq<char>),
    ObjectStart,
    ObjectEnd,
    ArrayStart,
    ArrayEnd,
    Key(Seq<char>),
    Eof,
}

impl View for Token {
    type V = TokenView;

    open spec fn view(&self) -> TokenView {
        match self {
            Token::Null => TokenView::Null,
            Token::Bool(b) => TokenView::Bool(*b),
            Token::Number(n) => TokenView::Number(n@),
            Token::String(s) => TokenView::String(s@),
            Token::ObjectStart => TokenView::ObjectStart,
            Token::ObjectEnd => TokenView::ObjectEnd,
            Token::ArrayStart => TokenView::ArrayStart,
            Token::ArrayEnd => TokenView::ArrayEnd,
            Token::Key(k) => TokenView::Key(k@),
            Token::Eof => TokenView::Eof,
        }
    }
}

/// The debugging text of a number: its variant's name and its value in brackets.
pub open spec fn number_text(n: NumberView) -> Seq<char> {
    match n {
        NumberView::Float(l) => "Float("@ + l + ")"@,
        NumberView::SignedInt(i) => "SignedInt("@ + signed_decimal(i as int) + ")"@,
        NumberView::UnsignedInt(u) => "UnsignedInt("@ + decimal(u as nat) + ")"@,
    }
}

/// The text by which a token is shown in messages.
pub open spec fn token_text(t: TokenView) -> Seq<char> {
    match t {
        TokenView::Null => "null"@,
        TokenView::Bool(b) => if b {
            "true"@
        } else {
            "false"@
        },
        TokenView::Number(n) => number_text(n),
        TokenView::String(s) => seq!['"'] + s + seq!['"'],
        TokenView::ObjectStart => seq!['{'],
        TokenView::ObjectEnd => seq!['}'],
        TokenView::ArrayStart => seq!['['],
        TokenView::ArrayEnd => seq![']'],
        TokenView::Key(k) => seq!['"'] + k + seq!['"', ':'],
        TokenView::Eof => "EOF"@,
    }
}

impl Number {
    /// Appends the debugging text of this number.
    pub fn write_text(&self, out: &mut String)
        ensures
            final(out)@ == old(out)@ + number_text(self@),
    {
        match self {
            Number::Float(l) => {
                push_str(out, "Float(");
                push_string(out, l);
                push_str(out, ")");
            },
            Number::SignedInt(i) => {
                push_str(out, "SignedInt(");
                push_signed_decimal(out, *i);
                push_str(out, ")");
            },
            Number::UnsignedInt(u) => {
                push_str(out, "UnsignedInt(");
                push_decimal(out, *u);
                push_str(out, ")");
            },
        }
        assert(out@ =~= old(out)@ + number_text(self@));
    }
}

impl Token {
    /// Appends the text by which this token is shown.
    pub fn write_text(&self, out: &mut String)
        ensures
            final(out)@ == old(out)@ + token_text(self@),
    {
        match self {
            Token::Null => push_str(out, "null"),
            Token::Bool(b) => {
                if *b {
                    push_str(out, "true")
                } else {
                    push_str(out, "false")
                }
            },
            Token::Number(n) => n.write_text(out),
            Token::String(s) => {
                push_char(out, '"');
                push_string(out, s);
                push_char(out, '"');
            },
            Token::ObjectStart => push_char(out, '{'),
            Token::ObjectEnd => push_char(out, '}'),
            Token::ArrayStart => push_char(out, '['),
            Token::ArrayEnd => push_char(out, ']'),
            Token::Key(k) => {
                push_char(out, '"');
                push_string(out, k);
                push_char(out, '"');
                push_char(out, ':');
            },
            Token::Eof => push_str(out, "EOF"),
        }
        assert(out@ =~= old(out)@ + token_text(self@));
    }

    /// A copy of this token.
    pub fn duplicate(&self) -> (t: Token)
        ensures
            t == *self,
    {
        match self {
            Token::Null => Token::Null,
            Token::Bool(b) => Token::Bool(*b),
            Token::Number(n) => Token::Number(
                match n {
                    Number::Float(l) => Number::Float(l.clone()),
                    Number::SignedInt(i) => Number::SignedInt(*i),
                    Number::UnsignedInt(u) => Number::UnsignedInt(*u),
                },
            ),
            Token::String(s) => Token::String(s.clone()),
            Token::ObjectStart => Token::ObjectStart,
            Token::ObjectEnd => Token::ObjectEnd,
            Token::ArrayStart => Token::ArrayStart,
            Token::ArrayEnd => Token::ArrayEnd,
            Token::Key(k) => Token::Key(k.clone()),
            Token::Eof => Token::Eof,
        }
    }

    /// Whether this token and `other` are the same token (same kind, same content).
    pub fn same_as(&self, other: &Token) -> (r: bool)
        ensures
            r == (self@ == other@),
    {
        match (self, other) {
            (Token::Null, Token::Null) => true,
            (Token::Bool(a), Token::Bool(b)) => *a == *b,
            (Token::Number(a), Token::Number(b)) => match (a, b) {
                (Number::Float(x), Number::Float(y)) => String::eq(x, y),
                (Number::SignedInt(x), Number::SignedInt(y)) => *x == *y,
                (Number::UnsignedInt(x), Number::UnsignedInt(y)) => *x == *y,
                _ => false,
            },
            (Token::String(a), Token::String(b)) => String::eq(a, b),
            (Token::ObjectStart, Token::ObjectStart) => true,
            (Token::ObjectEnd, Token::ObjectEnd) => true,
            (Token::ArrayStart, Token::ArrayStart) => true,
            (Token::ArrayEnd, Token::ArrayEnd) => true,
            (Token::Key(a), Token::Key(b)) => String::eq(a, b),
            (Token::Eof, Token::Eof) => true,
            _ => false,
        }
    }

    /// The text by which this token is shown in messages.
    pub fn display_text(&self) -> (s: String)
        ensures
            s@ == token_text(self@),
    {
        let mut s = String::new();
        self.write_text(&mut s);
        assert(s@ =~= token_text(self@));
        s
    }
}

} // verus!
