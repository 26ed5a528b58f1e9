//! JSON tokenizer for streaming deserialization.
//!
//! The tokenizer reads a JSON text byte by byte and hands out tokens. Strings
//! are decoded as UTF-8, with JSON's escapes (`\uXXXX` included). Outside
//! strings the text is read as ASCII; a byte named in a message stands for the
//! character of the same code. Separators (`,` and `:`) are skipped, so an
//! object key is handed out as a `Token::String`.
use vstd::prelude::*;

use crate::number::{all_digits, digits_value, float_ok, float_syntax, parse_digits};
use crate::error::{Error, ErrorView};
use crate::streaming::{
    converted, head, rest, stream_error_text, Pending, StreamError, StreamErrorView, Tokenizer,
};
use crate::text::{push_char, push_chars, push_str, string_from_chars};
use crate::token::{token_text, Number, NumberView, Token, TokenView};
use crate::unicode::{
    hex_digits_of, law_unicode_escape_names_code, law_utf8_decodes_encoding, unicode_escape,
    unicode_escape_at, utf8_char, utf8_char_at, utf8_encoding,
};

verus! {

/// JSON whitespace, as `u8::is_ascii_whitespace` has it: space, tab, line feed,
/// form feed and carriage return.
pub open spec fn is_json_space(b: u8) -> bool {
    b == 32 || b == 9 || b == 10 || b == 12 || b == 13
}

/// The character a byte stands for.
pub open spec fn byte_char(b: u8) -> char {
    b as char
}

/// The character that an escape sequence `\c` stands for, if `c` may follow a backslash.
pub open spec fn escape_of(c: char) -> Option<char> {
    if c == '"' {
        Some('"')
    } else if c == '\\' {
        Some('\\')
    } else if c == '/' {
        Some('/')
    } else if c == 'b' {
        Some('\u{8}')
    } else if c == 'f' {
        Some('\u{c}')
    } else if c == 'n' {
        Some('\n')
    } else if c == 'r' {
        Some('\r')
    } else if c == 't' {
        Some('\t')
    } else {
        None
    }
}

/// Reading the body of a string from byte `p` on, after its opening quote, with
/// `acc` read so far and `escaped` set right after a backslash: the characters
/// of the string, or the error, and the position after the bytes read. The
/// text is UTF-8: a byte above 127 starts a multi-byte character, and a
/// malformed sequence is refused; `\u` escapes name characters by their code
/// (a surrogate pair by two escapes).
pub open spec fn scan_string(input: Seq<u8>, p: nat, acc: Seq<char>, escaped: bool) -> (Result<
    Seq<char>,
    StreamErrorView,
>, nat)
    decreases input.len() - p,
{
    if p >= input.len() {
        (Err(StreamErrorView::UnexpectedEof), input.len())
    } else {
        let b = input[p as int];
        let c = byte_char(b);
        if escaped {
            if c == 'u' {
                let (r, n) = unicode_escape(input, (p + 1) as int);
                match r {
                    Ok(e) => if p < n <= input.len() {
                        scan_string(input, n, acc.push(e), false)
                    } else {
                        (Err(StreamErrorView::UnexpectedEof), input.len())
                    },
                    Err(x) => (Err(x), n),
                }
            } else {
                match escape_of(c) {
                    Some(e) => scan_string(input, p + 1, acc.push(e), false),
                    None => (
                        Err(StreamErrorView::InvalidJson("Invalid escape sequence: \\"@.push(c))),
                        p + 1,
                    ),
                }
            }
        } else if c == '"' {
            (Ok(acc), p + 1)
        } else if c == '\\' {
            scan_string(input, p + 1, acc, true)
        } else if b < 128 {
            scan_string(input, p + 1, acc.push(c), false)
        } else {
            match utf8_char(input, p as int) {
                Some((u, n)) => if 1 <= n && p + n <= input.len() {
                    scan_string(input, p + n, acc.push(u), false)
                } else {
                    (Err(StreamErrorView::UnexpectedEof), input.len())
                },
                None => (Err(StreamErrorView::InvalidJson("Invalid UTF-8 in string"@)), p + 1),
            }
        }
    }
}

/// Reading the rest of the literal `word` from byte `p` on, its characters
/// before index `k` read already (`first` being its first character).
pub open spec fn scan_literal(input: Seq<u8>, p: nat, word: Seq<char>, k: nat, first: char) -> (
    Result<(), StreamErrorView>,
    nat,
)
    decreases word.len() - k,
{
    if k >= word.len() {
        (Ok(()), p)
    } else if p >= input.len() {
        (Err(StreamErrorView::UnexpectedEof), input.len())
    } else if byte_char(input[p as int]) != word[k as int] {
        (
            Err(
                StreamErrorView::InvalidJson(
                    "Expected '"@ + word + "', found '"@ + seq![first, byte_char(input[p as int])]
                        + "'"@,
                ),
            ),
            p + 1,
        )
    } else {
        scan_literal(input, p + 1, word, k + 1, first)
    }
}

/// Gathering the characters of a number from byte `p` on, `lex` gathered so far:
/// digits, one `.` before any exponent, one `e` or `E`, and a sign right after
/// it. Gives the text, whether it has a dot, whether it has an exponent, and the
/// position of the first byte that is not part of it.
pub open spec fn scan_number(input: Seq<u8>, p: nat, lex: Seq<char>, has_dot: bool, has_exp: bool) -> (
    Seq<char>,
    bool,
    bool,
    nat,
)
    decreases input.len() - p,
{
    if p >= input.len() {
        (lex, has_dot, has_exp, p)
    } else {
        let c = byte_char(input[p as int]);
        if '0' <= c && c <= '9' {
            scan_number(input, p + 1, lex.push(c), has_dot, has_exp)
        } else if c == '.' && !has_dot && !has_exp {
            scan_number(input, p + 1, lex.push(c), true, has_exp)
        } else if (c == 'e' || c == 'E') && !has_exp {
            scan_number(input, p + 1, lex.push(c), has_dot, true)
        } else if (c == '+' || c == '-') && has_exp && lex.len() > 0 && (lex.last() == 'e'
            || lex.last() == 'E') {
            scan_number(input, p + 1, lex.push(c), has_dot, has_exp)
        } else {
            (lex, has_dot, has_exp, p)
        }
    }
}

/// The largest magnitude of a negative `i64`.
pub open spec fn i64_magnitude_limit() -> nat {
    0x8000_0000_0000_0000
}

/// The number that a gathered text stands for: a float literal when it has a
/// dot or an exponent (checked against `float_syntax`), a negative integer when
/// it starts with `-` (as `i64::from_str` reads it), a non-negative integer
/// otherwise (as `u64::from_str` reads it).
pub open spec fn number_of(lex: Seq<char>, has_dot: bool, has_exp: bool) -> Result<
    NumberView,
    StreamErrorView,
> {
    if has_dot || has_exp {
        if float_syntax(lex) {
            Ok(NumberView::Float(lex))
        } else {
            Err(StreamErrorView::InvalidJson("Invalid float: "@ + lex))
        }
    } else if lex.len() > 0 && lex[0] == '-' {
        let ds = lex.drop_first();
        if ds.len() > 0 && all_digits(ds) && digits_value(ds) <= i64_magnitude_limit() {
            Ok(NumberView::SignedInt((0 - digits_value(ds)) as i64))
        } else {
            Err(StreamErrorView::InvalidJson("Invalid integer: "@ + lex))
        }
    } else if lex.len() > 0 && all_digits(lex) && digits_value(lex) <= u64::MAX {
        Ok(NumberView::UnsignedInt(digits_value(lex) as u64))
    } else {
        Err(StreamErrorView::InvalidJson("Invalid number: "@ + lex))
    }
}

/// The token that starts at byte `i`, a byte that is not whitespace, and the
/// position after it.
pub open spec fn token_from(input: Seq<u8>, i: nat) -> (Result<TokenView, StreamErrorView>, nat)
    decreases input.len() - i, 0nat,
{
    if i >= input.len() {
        (Ok(TokenView::Eof), input.len())
    } else {
        let b = input[i as int];
        let c = byte_char(b);
        let n = i + 1;
        if b == 123 {
            (Ok(TokenView::ObjectStart), n)
        } else if b == 125 {
            (Ok(TokenView::ObjectEnd), n)
        } else if b == 91 {
            (Ok(TokenView::ArrayStart), n)
        } else if b == 93 {
            (Ok(TokenView::ArrayEnd), n)
        } else if b == 34 {
            let (r, e) = scan_string(input, n, seq![], false);
            (
                match r {
                    Ok(s) => Ok(TokenView::String(s)),
                    Err(x) => Err(x),
                },
                e,
            )
        } else if b == 110 {
            let (r, e) = scan_literal(input, n, "null"@, 1, c);
            (
                match r {
                    Ok(_) => Ok(TokenView::Null),
                    Err(x) => Err(x),
                },
                e,
            )
        } else if b == 116 {
            let (r, e) = scan_literal(input, n, "true"@, 1, c);
            (
                match r {
                    Ok(_) => Ok(TokenView::Bool(true)),
                    Err(x) => Err(x),
                },
                e,
            )
        } else if b == 102 {
            let (r, e) = scan_literal(input, n, "false"@, 1, c);
            (
                match r {
                    Ok(_) => Ok(TokenView::Bool(false)),
                    Err(x) => Err(x),
                },
                e,
            )
        } else if (48 <= b && b <= 57) || b == 45 {
            let (lex, d, x, e) = scan_number(input, n, seq![c], false, false);
            (
                match number_of(lex, d, x) {
                    Ok(v) => Ok(TokenView::Number(v)),
                    Err(y) => Err(y),
                },
                e,
            )
        } else if b == 44 || b == 58 {
            json_token_at(input, n)
        } else {
            (Err(StreamErrorView::InvalidJson("Unexpected character: '"@ + seq![c, '\''])), n)
        }
    }
}

/// The next token from byte `pos` on, and the position after it: whitespace is
/// skipped, the end of the input gives `Eof`.
pub open spec fn json_token_at(input: Seq<u8>, pos: nat) -> (Result<TokenView, StreamErrorView>, nat)
    decreases input.len() - pos, 1nat,
{
    if pos >= input.len() {
        (Ok(TokenView::Eof), input.len())
    } else if is_json_space(input[pos as int]) {
        json_token_at(input, pos + 1)
    } else {
        token_from(input, pos)
    }
}

/// All that reading from byte `pos` on hands out before the end of the input:
/// tokens, and errors where reading fails.
pub open spec fn json_results(input: Seq<u8>, pos: nat) -> Seq<Result<TokenView, StreamErrorView>>
    decreases input.len() - pos,
{
    let (r, next) = json_token_at(input, pos);
    if r matches Ok(TokenView::Eof) {
        seq![]
    } else if pos < next <= input.len() {
        seq![r] + json_results(input, next)
    } else {
        seq![]
    }
}

proof fn lemma_unicode_escape_bounds(input: Seq<u8>, q: int)
    requires
        0 <= q <= input.len(),
    ensures
        q <= unicode_escape(input, q).1 <= input.len(),
{
}

proof fn lemma_scan_string_bounds(input: Seq<u8>, p: nat, acc: Seq<char>, escaped: bool)
    requires
        p <= input.len(),
    ensures
        p <= scan_string(input, p, acc, escaped).1 <= input.len(),
        p < input.len() ==> p < scan_string(input, p, acc, escaped).1,
    decreases input.len() - p,
{
    if p < input.len() {
        let b = input[p as int];
        let c = byte_char(b);
        if escaped {
            if c == 'u' {
                lemma_unicode_escape_bounds(input, (p + 1) as int);
                let (r, n) = unicode_escape(input, (p + 1) as int);
                if let Ok(e) = r {
                    if p < n <= input.len() {
                        lemma_scan_string_bounds(input, n, acc.push(e), false);
                    }
                }
            } else if let Some(e) = escape_of(c) {
                lemma_scan_string_bounds(input, p + 1, acc.push(e), false);
            }
        } else if c == '"' {
        } else if c == '\\' {
            lemma_scan_string_bounds(input, p + 1, acc, true);
        } else if b < 128 {
            lemma_scan_string_bounds(input, p + 1, acc.push(c), false);
        } else if let Some((u, n)) = utf8_char(input, p as int) {
            if 1 <= n && p + n <= input.len() {
                lemma_scan_string_bounds(input, p + n, acc.push(u), false);
            }
        }
    }
}

proof fn lemma_scan_literal_bounds(input: Seq<u8>, p: nat, word: Seq<char>, k: nat, first: char)
    requires
        p <= input.len(),
    ensures
        p <= scan_literal(input, p, word, k, first).1 <= input.len(),
    decreases word.len() - k,
{
    if k < word.len() && p < input.len() && byte_char(input[p as int]) == word[k as int] {
        lemma_scan_literal_bounds(input, p + 1, word, k + 1, first);
    }
}

proof fn lemma_scan_number_bounds(input: Seq<u8>, p: nat, lex: Seq<char>, has_dot: bool, has_exp: bool)
    requires
        p <= input.len(),
    ensures
        p <= scan_number(input, p, lex, has_dot, has_exp).3 <= input.len(),
    decreases input.len() - p,
{
    if p < input.len() {
        let c = byte_char(input[p as int]);
        if '0' <= c && c <= '9' {
            lemma_scan_number_bounds(input, p + 1, lex.push(c), has_dot, has_exp);
        } else if c == '.' && !has_dot && !has_exp {
            lemma_scan_number_bounds(input, p + 1, lex.push(c), true, has_exp);
        } else if (c == 'e' || c == 'E') && !has_exp {
            lemma_scan_number_bounds(input, p + 1, lex.push(c), has_dot, true);
        } else if (c == '+' || c == '-') && has_exp && lex.len() > 0 && (lex.last() == 'e'
            || lex.last() == 'E') {
            lemma_scan_number_bounds(input, p + 1, lex.push(c), has_dot, has_exp);
        }
    }
}

/// Reading a token takes at least one byte, and the end of the input is read
/// only at the end.
pub proof fn lemma_token_advances(input: Seq<u8>, pos: nat)
    requires
        pos <= input.len(),
    ensures
        json_token_at(input, pos).0 matches Ok(TokenView::Eof) ==> json_token_at(input, pos).1
            == input.len(),
        !(json_token_at(input, pos).0 matches Ok(TokenView::Eof)) ==> pos < json_token_at(
            input,
            pos,
        ).1 <= input.len(),
    decreases input.len() - pos, 1nat,
{
    if pos < input.len() {
        if is_json_space(input[pos as int]) {
            lemma_token_advances(input, pos + 1);
        } else {
            lemma_token_from_advances(input, pos);
        }
    }
}

proof fn lemma_token_from_advances(input: Seq<u8>, i: nat)
    requires
        i < input.len(),
    ensures
        token_from(input, i).0 matches Ok(TokenView::Eof) ==> token_from(input, i).1 == input.len(),
        !(token_from(input, i).0 matches Ok(TokenView::Eof)) ==> i < token_from(input, i).1
            <= input.len(),
    decreases input.len() - i, 0nat,
{
    let b = input[i as int];
    let c = byte_char(b);
    let n = i + 1;
    lemma_scan_string_bounds(input, n, seq![], false);
    lemma_scan_literal_bounds(input, n, "null"@, 1, c);
    lemma_scan_literal_bounds(input, n, "true"@, 1, c);
    lemma_scan_literal_bounds(input, n, "false"@, 1, c);
    lemma_scan_number_bounds(input, n, seq![c], false, false);
    if b == 44 || b == 58 {
        lemma_token_advances(input, n);
    }
}

/// Unfolding `json_results` once.
pub proof fn lemma_results_unfold(input: Seq<u8>, pos: nat)
    requires
        pos <= input.len(),
    ensures
        json_token_at(input, pos).0 matches Ok(TokenView::Eof) ==> json_results(input, pos) =~= seq![],
        !(json_token_at(input, pos).0 matches Ok(TokenView::Eof)) ==> json_results(input, pos)
            =~= seq![json_token_at(input, pos).0] + json_results(input, json_token_at(input, pos).1),
{
    lemma_token_advances(input, pos);
}

/// Reading a text hands out at most one result per byte; after them, only `Eof`.
pub proof fn law_results_bounded(input: Seq<u8>, pos: nat)
    requires
        pos <= input.len(),
    ensures
        json_results(input, pos).len() <= input.len() - pos,
    decreases input.len() - pos,
{
    lemma_results_unfold(input, pos);
    let (r, next) = json_token_at(input, pos);
    if !(r matches Ok(TokenView::Eof)) {
        lemma_token_advances(input, pos);
        law_results_bounded(input, next);
    }
}

/// The ASCII whitespace bytes (space, tab, line feed, form feed, carriage
/// return) are skipped before a token: reading from one of them gives what
/// reading from the byte after it gives, so `[1,\r\n2]` reads as
/// `[`, `1`, `2`, `]`.
pub proof fn law_ascii_whitespace_skipped(input: Seq<u8>, pos: nat)
    requires
        pos < input.len(),
        input[pos as int] == 32u8 || input[pos as int] == 9u8 || input[pos as int] == 10u8
            || input[pos as int] == 12u8 || input[pos as int] == 13u8,
    ensures
        json_token_at(input, pos) == json_token_at(input, pos + 1),
{
}

/// Whitespace, commas and colons in front of a token are skipped: reading from
/// such a byte gives what reading from the byte after it gives.
pub proof fn law_separators_skipped(input: Seq<u8>, pos: nat)
    requires
        pos < input.len(),
        is_json_space(input[pos as int]) || input[pos as int] == 44 || input[pos as int] == 58,
    ensures
        json_token_at(input, pos) == json_token_at(input, pos + 1),
        json_results(input, pos) == json_results(input, pos + 1),
{
    if !is_json_space(input[pos as int]) {
        assert(json_token_at(input, pos) == token_from(input, pos));
        assert(token_from(input, pos) == json_token_at(input, pos + 1));
    }
    lemma_results_unfold(input, pos);
    lemma_results_unfold(input, pos + 1);
    lemma_token_advances(input, pos + 1);
}

proof fn lemma_token_from_not_key(input: Seq<u8>, i: nat)
    ensures
        !(token_from(input, i).0 matches Ok(TokenView::Key(_))),
    decreases input.len() - i, 0nat,
{
    if i < input.len() {
        let b = input[i as int];
        if b == 44 || b == 58 {
            lemma_token_at_not_key(input, i + 1);
        }
    }
}

proof fn lemma_token_at_not_key(input: Seq<u8>, pos: nat)
    ensures
        !(json_token_at(input, pos).0 matches Ok(TokenView::Key(_))),
    decreases input.len() - pos, 1nat,
{
    if pos < input.len() {
        if is_json_space(input[pos as int]) {
            lemma_token_at_not_key(input, pos + 1);
        } else {
            lemma_token_from_not_key(input, pos);
        }
    }
}

/// Reading a JSON text never hands out a `Token::Key`: an object's keys come
/// as `Token::String`.
pub proof fn law_no_key_tokens(input: Seq<u8>, pos: nat)
    requires
        pos <= input.len(),
    ensures
        !(json_token_at(input, pos).0 matches Ok(TokenView::Key(_))),
        forall|i: int|
            0 <= i < json_results(input, pos).len() ==> !(#[trigger] json_results(input, pos)[i] matches Ok(
                TokenView::Key(_),
            )),
    decreases input.len() - pos,
{
    lemma_token_at_not_key(input, pos);
    lemma_results_unfold(input, pos);
    let (r, next) = json_token_at(input, pos);
    if !(r matches Ok(TokenView::Eof)) {
        lemma_token_advances(input, pos);
        law_no_key_tokens(input, next);
        let rs = json_results(input, pos);
        assert forall|i: int| 0 <= i < rs.len() implies !(#[trigger] rs[i] matches Ok(
            TokenView::Key(_),
        )) by {
            if i > 0 {
                assert(rs[i] == json_results(input, next)[i - 1]);
            }
        }
    }
}

/// Results with neither an `Eof` nor a `Key` among them.
pub open spec fn results_clean(rs: Seq<Result<TokenView, StreamErrorView>>) -> bool {
    forall|i: int|
        0 <= i < rs.len() ==> !(#[trigger] rs[i] matches Ok(TokenView::Key(_))) && !(rs[i] matches Ok(
            TokenView::Eof,
        ))
}

proof fn lemma_results_clean(input: Seq<u8>, pos: nat)
    requires
        pos <= input.len(),
    ensures
        results_clean(json_results(input, pos)),
    decreases input.len() - pos,
{
    law_no_key_tokens(input, pos);
    lemma_results_unfold(input, pos);
    let (r, next) = json_token_at(input, pos);
    if !(r matches Ok(TokenView::Eof)) {
        lemma_token_advances(input, pos);
        lemma_results_clean(input, next);
        let rs = json_results(input, pos);
        assert forall|i: int| 0 <= i < rs.len() implies !(#[trigger] rs[i] matches Ok(
            TokenView::Eof,
        )) by {
            if i > 0 {
                assert(rs[i] == json_results(input, next)[i - 1]);
            }
        }
    }
}

/// At the end of a text, reading gives `Eof` again and again, taking nothing
/// more: once a read from `pos` gives `Eof`, it has reached the end, and a read
/// from there gives `Eof` and stays there; nothing is left to hand out.
pub proof fn law_end_repeats(input: Seq<u8>, pos: nat)
    requires
        pos <= input.len(),
        json_token_at(input, pos).0 matches Ok(TokenView::Eof),
    ensures
        json_token_at(input, pos).1 == input.len(),
        json_token_at(input, input.len()) == (Ok::<TokenView, StreamErrorView>(TokenView::Eof), input.len()),
        json_results(input, pos).len() == 0,
        json_results(input, input.len()).len() == 0,
{
    lemma_token_advances(input, pos);
    lemma_results_unfold(input, pos);
    lemma_results_unfold(input, input.len());
}

/// The characters that the bytes `input[lo..hi]` stand for.
pub open spec fn text_of(input: Seq<u8>, lo: int, hi: int) -> Seq<char> {
    input.subrange(lo, hi).map_values(|b: u8| b as char)
}

/// Whether the bytes `input[lo..hi]` are all decimal digits.
pub open spec fn digit_bytes(input: Seq<u8>, lo: int, hi: int) -> bool {
    forall|i: int| lo <= i < hi ==> 48 <= #[trigger] input[i] <= 57
}

/// Gathering a run of digits into a number's text.
proof fn lemma_scan_digits(input: Seq<u8>, p: nat, hi: nat, lex: Seq<char>, d: bool, x: bool)
    requires
        p <= hi <= input.len(),
        digit_bytes(input, p as int, hi as int),
    ensures
        scan_number(input, p, lex, d, x) == scan_number(
            input,
            hi,
            lex + text_of(input, p as int, hi as int),
            d,
            x,
        ),
    decreases hi - p,
{
    if p == hi {
        assert(lex + text_of(input, p as int, hi as int) =~= lex);
    } else {
        assert(48 <= input[p as int] <= 57);
        let c = byte_char(input[p as int]);
        lemma_scan_digits(input, p + 1, hi, lex.push(c), d, x);
        assert(lex.push(c) + text_of(input, p + 1int, hi as int) =~= lex + text_of(
            input,
            p as int,
            hi as int,
        ));
    }
}

proof fn lemma_text_is_digits(input: Seq<u8>, lo: int, hi: int)
    requires
        0 <= lo <= hi <= input.len(),
        digit_bytes(input, lo, hi),
    ensures
        all_digits(text_of(input, lo, hi)),
        text_of(input, lo, hi).len() == hi - lo,
{
    assert forall|i: int| 0 <= i < text_of(input, lo, hi).len() implies crate::number::is_digit(
        #[trigger] text_of(input, lo, hi)[i],
    ) by {
        assert(48 <= input[lo + i] <= 57);
    }
}

/// A run of digits, not followed by another number character (a digit, `.`,
/// `e` or `E`), reads as the unsigned integer it spells when that fits in a
/// `u64`, and reading goes on after it.
pub proof fn law_unsigned_integer_tokens(input: Seq<u8>, pos: nat, end: nat)
    requires
        pos < end <= input.len(),
        digit_bytes(input, pos as int, end as int),
        end == input.len() || !(48 <= input[end as int] <= 57 || input[end as int] == 46
            || input[end as int] == 101 || input[end as int] == 69),
    ensures
        digits_value(text_of(input, pos as int, end as int)) <= u64::MAX ==> json_token_at(
            input,
            pos,
        ) == (
            Ok::<TokenView, StreamErrorView>(
                TokenView::Number(
                    NumberView::UnsignedInt(digits_value(text_of(input, pos as int, end as int)) as u64),
                ),
            ),
            end,
        ),
        digits_value(text_of(input, pos as int, end as int)) > u64::MAX ==> json_token_at(input, pos)
            == (
            Err::<TokenView, StreamErrorView>(
                StreamErrorView::InvalidJson(
                    "Invalid number: "@ + text_of(input, pos as int, end as int),
                ),
            ),
            end,
        ),
{
    let b = input[pos as int];
    assert(48 <= b <= 57);
    let c = byte_char(b);
    lemma_scan_digits(input, pos + 1, end, seq![c], false, false);
    assert(seq![c] + text_of(input, pos + 1int, end as int) =~= text_of(input, pos as int, end as int));
    lemma_text_is_digits(input, pos as int, end as int);
    let lex = text_of(input, pos as int, end as int);
    assert(lex[0] == c);
    assert(scan_number(input, end, lex, false, false) == (lex, false, false, end));
    assert(scan_number(input, pos + 1, seq![c], false, false) == (lex, false, false, end));
    assert(json_token_at(input, pos) == token_from(input, pos));
}

/// A minus sign, then a run of digits not followed by another number character,
/// reads as the negative of the number the digits spell, when that fits in an
/// `i64`.
pub proof fn law_negative_integer_tokens(input: Seq<u8>, pos: nat, end: nat)
    requires
        pos + 1 < end <= input.len(),
        input[pos as int] == 45,
        digit_bytes(input, pos + 1int, end as int),
        end == input.len() || !(48 <= input[end as int] <= 57 || input[end as int] == 46
            || input[end as int] == 101 || input[end as int] == 69),
    ensures
        digits_value(text_of(input, pos + 1int, end as int)) > 0x8000_0000_0000_0000
            ==> json_token_at(input, pos) == (
            Err::<TokenView, StreamErrorView>(
                StreamErrorView::InvalidJson(
                    "Invalid integer: "@ + text_of(input, pos as int, end as int),
                ),
            ),
            end,
        ),
        digits_value(text_of(input, pos + 1int, end as int)) <= 0x8000_0000_0000_0000
            ==> json_token_at(input, pos) == (
            Ok::<TokenView, StreamErrorView>(
                TokenView::Number(
                    NumberView::SignedInt(
                        (0 - digits_value(text_of(input, pos + 1int, end as int))) as i64,
                    ),
                ),
            ),
            end,
        ),
{
    lemma_scan_digits(input, pos + 1, end, seq!['-'], false, false);
    let lex = seq!['-'] + text_of(input, pos + 1int, end as int);
    assert(lex.drop_first() =~= text_of(input, pos + 1int, end as int));
    lemma_text_is_digits(input, pos + 1int, end as int);
    assert(byte_char(input[pos as int]) == '-');
    assert(scan_number(input, end, lex, false, false) == (lex, false, false, end));
    assert(scan_number(input, pos + 1, seq!['-'], false, false) == (lex, false, false, end));
    assert(lex[0] == '-');
    assert(lex =~= text_of(input, pos as int, end as int));
    assert(json_token_at(input, pos) == token_from(input, pos));
}

/// Digits, an exponent mark (`e` or `E`) and more digits, not followed by
/// another digit, read as a float kept by its text: `1e5` is the float `1e5`.
pub proof fn law_exponent_tokens(input: Seq<u8>, pos: nat, mark: nat, end: nat)
    requires
        pos < mark,
        mark + 1 < end <= input.len(),
        digit_bytes(input, pos as int, mark as int),
        input[mark as int] == 101 || input[mark as int] == 69,
        digit_bytes(input, mark + 1int, end as int),
        end == input.len() || !(48 <= input[end as int] <= 57),
    ensures
        json_token_at(input, pos) == (
            Ok::<TokenView, StreamErrorView>(
                TokenView::Number(NumberView::Float(text_of(input, pos as int, end as int))),
            ),
            end,
        ),
{
    let c = byte_char(input[pos as int]);
    assert(48 <= input[pos as int] <= 57);
    let m = byte_char(input[mark as int]);
    lemma_scan_digits(input, pos + 1, mark, seq![c], false, false);
    let lex1 = seq![c] + text_of(input, pos + 1int, mark as int);
    assert(lex1 =~= text_of(input, pos as int, mark as int));
    lemma_scan_digits(input, mark + 1, end, lex1.push(m), false, true);
    let lex = lex1.push(m) + text_of(input, mark + 1int, end as int);
    assert(lex =~= text_of(input, pos as int, end as int));
    lemma_text_is_digits(input, pos as int, mark as int);
    lemma_text_is_digits(input, mark + 1int, end as int);
    let ds = text_of(input, pos as int, mark as int);
    let xs = text_of(input, mark + 1int, end as int);
    assert(lex.last() == xs.last());
    assert(forall|i: int| 0 <= i < ds.len() ==> crate::number::is_digit(#[trigger] ds[i]));
    crate::number::law_float_exponents(ds, m, Seq::<char>::empty(), xs);
    assert(ds + seq![m] + Seq::<char>::empty() + xs =~= lex);
    assert(scan_number(input, end, lex, false, true) == (lex, false, true, end));
    assert(scan_number(input, mark, lex1, false, false) == scan_number(
        input,
        mark + 1,
        lex1.push(m),
        false,
        true,
    ));
    assert(number_of(lex, false, true) == Ok::<NumberView, StreamErrorView>(
        NumberView::Float(lex),
    ));
    assert(json_token_at(input, pos) == token_from(input, pos));
}

/// The literals `true`, `false` and `null`, spelled out in the text, read as
/// the tokens they name, and reading goes on right after them.
pub proof fn law_literal_tokens(input: Seq<u8>, pos: nat)
    ensures
        pos + 4 <= input.len() && text_of(input, pos as int, pos + 4int) == seq!['t', 'r', 'u', 'e']
            ==> json_token_at(input, pos) == (
            Ok::<TokenView, StreamErrorView>(TokenView::Bool(true)),
            pos + 4,
        ),
        pos + 5 <= input.len() && text_of(input, pos as int, pos + 5int) == seq![
            'f',
            'a',
            'l',
            's',
            'e',
        ] ==> json_token_at(input, pos) == (
            Ok::<TokenView, StreamErrorView>(TokenView::Bool(false)),
            pos + 5,
        ),
        pos + 4 <= input.len() && text_of(input, pos as int, pos + 4int) == seq!['n', 'u', 'l', 'l']
            ==> json_token_at(input, pos) == (
            Ok::<TokenView, StreamErrorView>(TokenView::Null),
            pos + 4,
        ),
{
    reveal_strlit("true");
    reveal_strlit("false");
    reveal_strlit("null");
    if pos + 4 <= input.len() {
        let t = text_of(input, pos as int, pos + 4int);
        assert(t[0] == byte_char(input[pos as int]));
        assert(t[1] == byte_char(input[pos + 1int]));
        assert(t[2] == byte_char(input[pos + 2int]));
        assert(t[3] == byte_char(input[pos + 3int]));
        if t == seq!['t', 'r', 'u', 'e'] || t == seq!['n', 'u', 'l', 'l'] {
            assert(input[pos as int] == 116 || input[pos as int] == 110);
            let w = if t[0] == 't' { "true"@ } else { "null"@ };
            let f = byte_char(input[pos as int]);
            assert(scan_literal(input, pos + 4, w, 4, f) == (Ok::<(), StreamErrorView>(()), pos + 4));
            assert(scan_literal(input, pos + 3, w, 3, f) == (Ok::<(), StreamErrorView>(()), pos + 4));
            assert(scan_literal(input, pos + 2, w, 2, f) == (Ok::<(), StreamErrorView>(()), pos + 4));
            assert(scan_literal(input, pos + 1, w, 1, f) == (Ok::<(), StreamErrorView>(()), pos + 4));
            assert(json_token_at(input, pos) == token_from(input, pos));
        }
    }
    if pos + 5 <= input.len() {
        let t = text_of(input, pos as int, pos + 5int);
        assert(t[0] == byte_char(input[pos as int]));
        assert(t[1] == byte_char(input[pos + 1int]));
        assert(t[2] == byte_char(input[pos + 2int]));
        assert(t[3] == byte_char(input[pos + 3int]));
        assert(t[4] == byte_char(input[pos + 4int]));
        if t == seq!['f', 'a', 'l', 's', 'e'] {
            assert(input[pos as int] == 102);
            let w = "false"@;
            let f = byte_char(input[pos as int]);
            assert(scan_literal(input, pos + 5, w, 5, f) == (Ok::<(), StreamErrorView>(()), pos + 5));
            assert(scan_literal(input, pos + 4, w, 4, f) == (Ok::<(), StreamErrorView>(()), pos + 5));
            assert(scan_literal(input, pos + 3, w, 3, f) == (Ok::<(), StreamErrorView>(()), pos + 5));
            assert(scan_literal(input, pos + 2, w, 2, f) == (Ok::<(), StreamErrorView>(()), pos + 5));
            assert(scan_literal(input, pos + 1, w, 1, f) == (Ok::<(), StreamErrorView>(()), pos + 5));
            assert(json_token_at(input, pos) == token_from(input, pos));
        }
    }
}

/// Whether the bytes `input[lo..hi]` are ASCII other than `"` and `\\`.
pub open spec fn plain_bytes(input: Seq<u8>, lo: int, hi: int) -> bool {
    forall|i: int| lo <= i < hi ==> #[trigger] input[i] < 128 && input[i] != 34 && input[i] != 92
}

proof fn lemma_scan_plain(input: Seq<u8>, p: nat, hi: nat, acc: Seq<char>)
    requires
        p <= hi <= input.len(),
        plain_bytes(input, p as int, hi as int),
    ensures
        scan_string(input, p, acc, false) == scan_string(
            input,
            hi,
            acc + text_of(input, p as int, hi as int),
            false,
        ),
    decreases hi - p,
{
    if p == hi {
        assert(acc + text_of(input, p as int, hi as int) =~= acc);
    } else {
        assert(input[p as int] < 128 && input[p as int] != 34 && input[p as int] != 92);
        let c = byte_char(input[p as int]);
        lemma_scan_plain(input, p + 1, hi, acc.push(c));
        assert(acc.push(c) + text_of(input, p + 1int, hi as int) =~= acc + text_of(
            input,
            p as int,
            hi as int,
        ));
    }
}

/// A string of ASCII characters other than `"` and `\\`, between quotes, reads
/// as a string of those characters, and reading goes on after its closing quote.
pub proof fn law_plain_string_tokens(input: Seq<u8>, pos: nat, end: nat)
    requires
        pos < end < input.len(),
        input[pos as int] == 34,
        input[end as int] == 34,
        plain_bytes(input, pos + 1int, end as int),
    ensures
        json_token_at(input, pos) == (
            Ok::<TokenView, StreamErrorView>(
                TokenView::String(text_of(input, pos + 1int, end as int)),
            ),
            end + 1,
        ),
{
    lemma_scan_plain(input, pos + 1, end, seq![]);
    assert(seq![] + text_of(input, pos + 1int, end as int) =~= text_of(input, pos + 1int, end as int));
    assert(json_token_at(input, pos) == token_from(input, pos));
}

/// A backslash and one of `"`, `\\`, `/`, `b`, `f`, `n`, `r`, `t`, between
/// quotes, reads as a string of the one character the escape names.
pub proof fn law_escape_tokens(input: Seq<u8>, pos: nat)
    requires
        pos + 4 <= input.len(),
        input[pos as int] == 34,
        input[pos + 1int] == 92,
        input[pos + 3int] == 34,
    ensures
        ({
            let e = input[pos + 2int];
            let named = if e == 34 {
                Some('"')
            } else if e == 92 {
                Some('\\')
            } else if e == 47 {
                Some('/')
            } else if e == 98 {
                Some('\u{8}')
            } else if e == 102 {
                Some('\u{c}')
            } else if e == 110 {
                Some('\n')
            } else if e == 114 {
                Some('\r')
            } else if e == 116 {
                Some('\t')
            } else {
                None::<char>
            };
            named matches Some(c) ==> json_token_at(input, pos) == (
                Ok::<TokenView, StreamErrorView>(TokenView::String(seq![c])),
                pos + 4,
            )
        }),
{
    assert(json_token_at(input, pos) == token_from(input, pos));
    let e = input[pos + 2int];
    if e != 117 {
        if let Some(c) = escape_of(byte_char(e)) {
            assert(scan_string(input, pos + 3, seq![c], false) == (
                Ok::<Seq<char>, StreamErrorView>(seq![c]),
                pos + 4,
            ));
            assert(scan_string(input, pos + 1, seq![], false) == scan_string(
                input,
                pos + 2,
                seq![],
                true,
            ));
        }
    }
}

/// A character above ASCII, written in UTF-8 between quotes, reads as a string
/// of that one character: the bytes `C3 A9` read as `é`.
pub proof fn law_utf8_string_tokens(input: Seq<u8>, pos: nat, c: char)
    requires
        c as int >= 0x80,
        pos + utf8_encoding(c).len() + 2 <= input.len(),
        input[pos as int] == 34,
        input.subrange(pos + 1int, pos + 1int + utf8_encoding(c).len()) == utf8_encoding(c),
        input[pos + 1int + utf8_encoding(c).len()] == 34,
    ensures
        json_token_at(input, pos) == (
            Ok::<TokenView, StreamErrorView>(TokenView::String(seq![c])),
            pos + utf8_encoding(c).len() + 2,
        ),
{
    let n = utf8_encoding(c).len();
    law_utf8_decodes_encoding(input, pos + 1int, c);
    assert(input.subrange(pos + 1int, pos + 1int + n)[0] == input[pos + 1int]);
    assert(input[pos + 1int] >= 128);
    assert(scan_string(input, pos + 1 + n, seq![c], false) == (
        Ok::<Seq<char>, StreamErrorView>(seq![c]),
        pos + n + 2,
    ));
    assert(seq![].push(c) == seq![c]);
    assert(json_token_at(input, pos) == token_from(input, pos));
}

/// A `\u` escape of four hexadecimal digits between quotes reads as a string of
/// the one character whose code they spell (below `0x10000`).
pub proof fn law_unicode_escape_string_tokens(input: Seq<u8>, pos: nat, c: char)
    requires
        (c as int) < 0x10000,
        pos + 8 <= input.len(),
        input[pos as int] == 34,
        input[pos + 1int] == 92,
        input[pos + 2int] == 117,
        hex_digits_of(input, pos + 3int, c as int),
        input[pos + 7int] == 34,
    ensures
        json_token_at(input, pos) == (
            Ok::<TokenView, StreamErrorView>(TokenView::String(seq![c])),
            pos + 8,
        ),
{
    law_unicode_escape_names_code(input, pos + 3int, c);
    assert(scan_string(input, pos + 7, seq![c], false) == (
        Ok::<Seq<char>, StreamErrorView>(seq![c]),
        pos + 8,
    ));
    assert(seq![].push(c) == seq![c]);
    assert(scan_string(input, pos + 1, seq![], false) == scan_string(input, pos + 2, seq![], true));
    assert(json_token_at(input, pos) == token_from(input, pos));
}

/// Digits, a dot and any digits, not followed by another digit or an exponent
/// mark, read as a float kept by its text: `1.5` is the float `1.5`.
pub proof fn law_decimal_tokens(input: Seq<u8>, pos: nat, dot: nat, end: nat)
    requires
        pos < dot < end <= input.len(),
        digit_bytes(input, pos as int, dot as int),
        input[dot as int] == 46,
        digit_bytes(input, dot + 1int, end as int),
        end == input.len() || !(48 <= input[end as int] <= 57 || input[end as int] == 101
            || input[end as int] == 69),
    ensures
        json_token_at(input, pos) == (
            Ok::<TokenView, StreamErrorView>(
                TokenView::Number(NumberView::Float(text_of(input, pos as int, end as int))),
            ),
            end,
        ),
{
    let c = byte_char(input[pos as int]);
    assert(48 <= input[pos as int] <= 57);
    lemma_scan_digits(input, pos + 1, dot, seq![c], false, false);
    let lex1 = seq![c] + text_of(input, pos + 1int, dot as int);
    assert(lex1 =~= text_of(input, pos as int, dot as int));
    lemma_scan_digits(input, dot + 1, end, lex1.push('.'), true, false);
    let lex = lex1.push('.') + text_of(input, dot + 1int, end as int);
    assert(lex =~= text_of(input, pos as int, end as int));
    lemma_text_is_digits(input, pos as int, dot as int);
    lemma_text_is_digits(input, dot + 1int, end as int);
    let ds = text_of(input, pos as int, dot as int);
    let xs = text_of(input, dot + 1int, end as int);
    assert(forall|i: int| 0 <= i < ds.len() ==> crate::number::is_digit(#[trigger] ds[i]));
    assert(forall|i: int| 0 <= i < xs.len() ==> crate::number::is_digit(#[trigger] xs[i]));
    crate::number::law_float_decimals(ds, xs, Seq::<char>::empty());
    assert(Seq::<char>::empty() + ds + seq!['.'] + xs =~= lex);
    assert(byte_char(input[dot as int]) == '.');
    assert(scan_number(input, end, lex, true, false) == (lex, true, false, end));
    assert(scan_number(input, dot, lex1, false, false) == scan_number(
        input,
        dot + 1,
        lex1.push('.'),
        true,
        false,
    ));
    assert(number_of(lex, true, false) == Ok::<NumberView, StreamErrorView>(NumberView::Float(lex)));
    assert(json_token_at(input, pos) == token_from(input, pos));
}

/// The brackets and braces read as the starts and ends of arrays and objects,
/// each one byte.
pub proof fn law_structural_tokens(input: Seq<u8>, pos: nat)
    requires
        pos < input.len(),
    ensures
        input[pos as int] == 123 ==> json_token_at(input, pos) == (
            Ok::<TokenView, StreamErrorView>(TokenView::ObjectStart),
            pos + 1,
        ),
        input[pos as int] == 125 ==> json_token_at(input, pos) == (
            Ok::<TokenView, StreamErrorView>(TokenView::ObjectEnd),
            pos + 1,
        ),
        input[pos as int] == 91 ==> json_token_at(input, pos) == (
            Ok::<TokenView, StreamErrorView>(TokenView::ArrayStart),
            pos + 1,
        ),
        input[pos as int] == 93 ==> json_token_at(input, pos) == (
            Ok::<TokenView, StreamErrorView>(TokenView::ArrayEnd),
            pos + 1,
        ),
{
    if !is_json_space(input[pos as int]) {
        assert(json_token_at(input, pos) == token_from(input, pos));
    }
}

/// The model of a read: a token or a stream error, by their views.
pub open spec fn read_view(r: Result<Token, StreamError>) -> Result<TokenView, StreamErrorView> {
    match r {
        Ok(t) => Ok(t@),
        Err(e) => Err(e@),
    }
}

/// The model of a number read.
pub open spec fn number_view(r: Result<Number, StreamError>) -> Result<NumberView, StreamErrorView> {
    match r {
        Ok(n) => Ok(n@),
        Err(e) => Err(e@),
    }
}

/// The first of the results `rs` still to be handed out (`Eof` once there are none).
pub open spec fn first_result(rs: Seq<Result<TokenView, StreamErrorView>>) -> Result<
    TokenView,
    StreamErrorView,
> {
    if rs.len() == 0 {
        Ok(TokenView::Eof)
    } else {
        rs[0]
    }
}

/// The results still to be handed out after one read.
pub open spec fn after_first(rs: Seq<Result<TokenView, StreamErrorView>>) -> Seq<
    Result<TokenView, StreamErrorView>,
> {
    if rs.len() == 0 {
        rs
    } else {
        rs.drop_first()
    }
}

/// What a tokenizer hands out, with the errors' contents left out.
pub open spec fn pending_of(rs: Seq<Result<TokenView, StreamErrorView>>) -> Pending {
    rs.map_values(|r: Result<TokenView, StreamErrorView>|
        match r {
            Ok(t) => Some(t),
            Err(_) => None,
        })
}

/// A JSON tokenizer that reads a JSON text and produces tokens.
pub struct JsonTokenizer {
    input: Vec<u8>,
    pos: usize,
    peeked: Option<Token>,
}

impl JsonTokenizer {
    #[verifier::type_invariant]
    spec fn well_formed(&self) -> bool {
        &&& self.pos <= self.input.len()
        &&& (self.peeked matches Some(t) ==> (t@ is Eof ==> json_results(
            self.input@,
            self.pos as nat,
        ).len() == 0))
        &&& (self.peeked matches Some(t) ==> !(t@ is Key))
    }

    /// Whether a peeked token other than `Eof` is held.
    spec fn holds_token(&self) -> bool {
        self.peeked matches Some(t) && !(t@ is Eof)
    }

    /// The text being read.
    pub closed spec fn input(&self) -> Seq<u8> {
        self.input@
    }

    /// The results this tokenizer will still hand out: its peeked token, if any,
    /// then what reading the rest of the text gives.
    pub closed spec fn results(&self) -> Seq<Result<TokenView, StreamErrorView>> {
        match self.peeked {
            Some(t) => if t@ is Eof {
                json_results(self.input@, self.pos as nat)
            } else {
                seq![Ok(t@)] + json_results(self.input@, self.pos as nat)
            },
            None => json_results(self.input@, self.pos as nat),
        }
    }

    /// Create a new JSON tokenizer that reads the given text.
    pub fn new(input: Vec<u8>) -> (t: JsonTokenizer)
        ensures
            t.input() == input@,
            t.results() == json_results(input@, 0),
    {
        JsonTokenizer { input, pos: 0, peeked: None }
    }

    /// Skip whitespace and return the next non-whitespace byte, consumed.
    fn skip_whitespace(&mut self) -> (r: Option<u8>)
        requires
            old(self).peeked is None,
        ensures
            final(self).peeked is None,
            final(self).input == old(self).input,
            final(self).pos <= final(self).input.len(),
            r is None ==> forall|j: int|
                old(self).pos <= j < final(self).pos ==> is_json_space(#[trigger] final(self).input@[j]),
            r is Some ==> forall|j: int|
                old(self).pos <= j < final(self).pos - 1 ==> is_json_space(
                    #[trigger] final(self).input@[j],
                ),
            r is None ==> final(self).pos == final(self).input.len() && json_token_at(
                old(self).input@,
                old(self).pos as nat,
            ) == (Ok::<TokenView, StreamErrorView>(TokenView::Eof), old(self).input.len() as nat),
            r matches Some(b) ==> old(self).pos < final(self).pos && final(self).input@[final(self).pos - 1] == b && !is_json_space(b) && json_token_at(
                old(self).input@,
                old(self).pos as nat,
            ) == token_from(old(self).input@, (final(self).pos - 1) as nat),
    {
        proof {
            use_type_invariant(&*self);
        }
        while self.pos < self.input.len()
            invariant
                self.peeked is None,
                self.input == old(self).input,
                old(self).pos <= self.pos <= self.input.len(),
                forall|j: int| old(self).pos <= j < self.pos ==> is_json_space(#[trigger] self.input@[j]),
                json_token_at(self.input@, old(self).pos as nat) == json_token_at(
                    self.input@,
                    self.pos as nat,
                ),
            decreases self.input.len() - self.pos,
        {
            let ch = self.input[self.pos];
            self.pos = self.pos + 1;
            if !(ch == 32 || ch == 9 || ch == 10 || ch == 12 || ch == 13) {
                return Some(ch);
            }
        }
        None
    }

    /// The character that follows a backslash in an escape sequence.
    fn escape_char(c: char) -> (r: Option<char>)
        ensures
            r == escape_of(c),
    {
        if c == '"' {
            Some('"')
        } else if c == '\\' {
            Some('\\')
        } else if c == '/' {
            Some('/')
        } else if c == 'b' {
            Some('\u{8}')
        } else if c == 'f' {
            Some('\u{c}')
        } else if c == 'n' {
            Some('\n')
        } else if c == 'r' {
            Some('\r')
        } else if c == 't' {
            Some('\t')
        } else {
            None
        }
    }

    /// Read a string token, after its opening quote.
    fn read_string(&mut self) -> (r: Result<String, StreamError>)
        requires
            old(self).peeked is None,
            old(self).pos <= old(self).input.len(),
        ensures
            final(self).peeked is None,
            final(self).input == old(self).input,
            final(self).pos <= final(self).input.len(),
            ((match r {
                Ok(s) => Ok::<Seq<char>, StreamErrorView>(s@),
                Err(e) => Err(e@),
            }), final(self).pos as nat) == scan_string(
                old(self).input@,
                old(self).pos as nat,
                seq![],
                false,
            ),
    {
        let mut result = String::new();
        let mut escaped = false;
        loop
            invariant
                self.peeked is None,
                self.input == old(self).input,
                self.pos <= self.input.len(),
                scan_string(self.input@, old(self).pos as nat, seq![], false) == scan_string(
                    self.input@,
                    self.pos as nat,
                    result@,
                    escaped,
                ),
            decreases self.input.len() - self.pos,
        {
            if self.pos >= self.input.len() {
                return Err(StreamError::UnexpectedEof);
            }
            let b = self.input[self.pos];
            let ch = b as char;
            if escaped && ch == 'u' {
                let (r, next) = unicode_escape_at(&self.input, self.pos + 1);
                self.pos = next;
                match r {
                    Ok(e) => {
                        push_char(&mut result, e);
                        escaped = false;
                    },
                    Err(x) => {
                        return Err(x);
                    },
                }
            } else if escaped {
                self.pos = self.pos + 1;
                match Self::escape_char(ch) {
                    Some(e) => {
                        push_char(&mut result, e);
                        escaped = false;
                    },
                    None => {
                        let mut m = "Invalid escape sequence: \\".to_owned();
                        push_char(&mut m, ch);
                        return Err(StreamError::InvalidJson(m));
                    },
                }
            } else if ch == '"' {
                self.pos = self.pos + 1;
                return Ok(result);
            } else if ch == '\\' {
                self.pos = self.pos + 1;
                escaped = true;
            } else if b < 128 {
                self.pos = self.pos + 1;
                push_char(&mut result, ch);
            } else {
                match utf8_char_at(&self.input, self.pos) {
                    Some((u, n)) => {
                        self.pos = self.pos + n;
                        push_char(&mut result, u);
                    },
                    None => {
                        self.pos = self.pos + 1;
                        return Err(StreamError::InvalidJson("Invalid UTF-8 in string".to_owned()));
                    },
                }
            }
        }
    }

    /// Read the rest of a literal (`null`, `true`, `false`) whose first byte was read.
    fn read_literal(&mut self, first_char: u8, expected: &str) -> (r: Result<(), StreamError>)
        requires
            old(self).peeked is None,
            old(self).pos <= old(self).input.len(),
        ensures
            final(self).peeked is None,
            final(self).input == old(self).input,
            final(self).pos <= final(self).input.len(),
            ((match r {
                Ok(_) => Ok::<(), StreamErrorView>(()),
                Err(e) => Err(e@),
            }), final(self).pos as nat) == scan_literal(
                old(self).input@,
                old(self).pos as nat,
                expected@,
                1,
                byte_char(first_char),
            ),
    {
        let n = expected.unicode_len();
        let mut k: usize = 1;
        while k < n
            invariant
                self.peeked is None,
                self.input == old(self).input,
                self.pos <= self.input.len(),
                n == expected@.len(),
                1 <= k,
                scan_literal(self.input@, old(self).pos as nat, expected@, 1, byte_char(first_char))
                    == scan_literal(self.input@, self.pos as nat, expected@, k as nat, byte_char(first_char)),
            decreases n - k,
        {
            if self.pos >= self.input.len() {
                return Err(StreamError::UnexpectedEof);
            }
            let ch = self.input[self.pos] as char;
            self.pos = self.pos + 1;
            if ch != expected.get_char(k) {
                let mut m = "Expected '".to_owned();
                push_str(&mut m, expected);
                push_str(&mut m, "', found '");
                push_char(&mut m, first_char as char);
                push_char(&mut m, ch);
                push_str(&mut m, "'");
                proof {
                    assert(m@ =~= "Expected '"@ + expected@ + "', found '"@ + seq![byte_char(first_char), ch] + "'"@);
                }
                return Err(StreamError::InvalidJson(m));
            }
            k = k + 1;
        }
        Ok(())
    }

    /// Read a number token whose first byte (a digit or `-`) was read.
    fn read_number(&mut self, first_char: u8) -> (r: Result<Number, StreamError>)
        requires
            old(self).peeked is None,
            old(self).pos <= old(self).input.len(),
        ensures
            final(self).peeked is None,
            final(self).input == old(self).input,
            final(self).pos <= final(self).input.len(),
            ({
                let (lex, d, x, e) = scan_number(
                    old(self).input@,
                    old(self).pos as nat,
                    seq![byte_char(first_char)],
                    false,
                    false,
                );
                final(self).pos == e && number_view(r) == number_of(lex, d, x)
            }),
    {
        let mut lex: Vec<char> = Vec::new();
        lex.push(first_char as char);
        let mut has_dot = false;
        let mut has_exp = false;
        let ghost start = scan_number(
            self.input@,
            self.pos as nat,
            seq![byte_char(first_char)],
            false,
            false,
        );
        assert(lex@ =~= seq![byte_char(first_char)]);
        loop
            invariant
                self.peeked is None,
                self.input == old(self).input,
                self.pos <= self.input.len(),
                lex@.len() > 0,
                start == scan_number(self.input@, self.pos as nat, lex@, has_dot, has_exp),
            ensures
                self.peeked is None,
                self.input == old(self).input,
                self.pos <= self.input.len(),
                lex@.len() > 0,
                start == (lex@, has_dot, has_exp, self.pos as nat),
            decreases self.input.len() - self.pos,
        {
            if self.pos >= self.input.len() {
                break;
            }
            let ch = self.input[self.pos] as char;
            let last = lex[lex.len() - 1];
            if '0' <= ch && ch <= '9' {
                lex.push(ch);
            } else if ch == '.' && !has_dot && !has_exp {
                has_dot = true;
                lex.push(ch);
            } else if (ch == 'e' || ch == 'E') && !has_exp {
                has_exp = true;
                lex.push(ch);
            } else if (ch == '+' || ch == '-') && has_exp && (last == 'e' || last == 'E') {
                lex.push(ch);
            } else {
                break;
            }
            self.pos = self.pos + 1;
        }
        if has_dot || has_exp {
            if float_ok(&lex) {
                Ok(Number::Float(string_from_chars(&lex)))
            } else {
                let mut m = "Invalid float: ".to_owned();
                push_chars(&mut m, &lex);
                Err(StreamError::InvalidJson(m))
            }
        } else if lex[0] == '-' {
            assert(lex@.skip(1) =~= lex@.drop_first());
            match parse_digits(&lex, 1) {
                Some(v) => {
                    if v <= 0x8000_0000_0000_0000u64 {
                        let i: i64 = if v == 0x8000_0000_0000_0000u64 {
                            i64::MIN
                        } else {
                            -(v as i64)
                        };
                        Ok(Number::SignedInt(i))
                    } else {
                        let mut m = "Invalid integer: ".to_owned();
                        push_chars(&mut m, &lex);
                        Err(StreamError::InvalidJson(m))
                    }
                },
                None => {
                    let mut m = "Invalid integer: ".to_owned();
                    push_chars(&mut m, &lex);
                    Err(StreamError::InvalidJson(m))
                },
            }
        } else {
            assert(lex@.skip(0) =~= lex@);
            // A digit string too large for `u64` is too large for `i64` as well.
            match parse_digits(&lex, 0) {
                Some(v) => Ok(Number::UnsignedInt(v)),
                None => {
                    let mut m = "Invalid number: ".to_owned();
                    push_chars(&mut m, &lex);
                    Err(StreamError::InvalidJson(m))
                },
            }
        }
    }

    /// Read the next token from the text.
    fn read_next_token(&mut self) -> (r: Result<Token, StreamError>)
        requires
            old(self).peeked is None,
        ensures
            final(self).peeked is None,
            final(self).input == old(self).input,
            (read_view(r), final(self).pos as nat) == json_token_at(
                old(self).input@,
                old(self).pos as nat,
            ),
        decreases old(self).input.len() - old(self).pos,
    {
        proof {
            use_type_invariant(&*self);
        }
        match self.skip_whitespace() {
            None => Ok(Token::Eof),
            Some(ch) => {
                let ghost i = (self.pos - 1) as nat;
                let ghost c = byte_char(ch);
                if ch == 123u8 {
                    Ok(Token::ObjectStart)
                } else if ch == 125u8 {
                    Ok(Token::ObjectEnd)
                } else if ch == 91u8 {
                    Ok(Token::ArrayStart)
                } else if ch == 93u8 {
                    Ok(Token::ArrayEnd)
                } else if ch == 34u8 {
                    match self.read_string() {
                        Ok(s) => Ok(Token::String(s)),
                        Err(e) => Err(e),
                    }
                } else if ch == 110u8 {
                    match self.read_literal(ch, "null") {
                        Ok(_) => Ok(Token::Null),
                        Err(e) => Err(e),
                    }
                } else if ch == 116u8 {
                    match self.read_literal(ch, "true") {
                        Ok(_) => Ok(Token::Bool(true)),
                        Err(e) => Err(e),
                    }
                } else if ch == 102u8 {
                    match self.read_literal(ch, "false") {
                        Ok(_) => Ok(Token::Bool(false)),
                        Err(e) => Err(e),
                    }
                } else if (48u8 <= ch && ch <= 57u8) || ch == 45u8 {
                    match self.read_number(ch) {
                        Ok(n) => Ok(Token::Number(n)),
                        Err(e) => Err(e),
                    }
                } else if ch == 44u8 || ch == 58u8 {
                    // Skip separators and read the next token
                    self.read_next_token()
                } else {
                    let mut m = "Unexpected character: '".to_owned();
                    push_char(&mut m, ch as char);
                    push_char(&mut m, '\'');
                    proof {
                        assert(m@ =~= "Unexpected character: '"@ + seq![c, '\'']);
                    }
                    Err(StreamError::InvalidJson(m))
                }
            },
        }
    }
} // impl JsonTokenizer

proof fn lemma_pending_of_first(rs: Seq<Result<TokenView, StreamErrorView>>)
    ensures
        head(pending_of(rs)) == (match first_result(rs) {
            Ok(t) => Some(t),
            Err(_) => None::<TokenView>,
        }),
        rest(pending_of(rs)) == pending_of(after_first(rs)),
{
    if rs.len() > 0 {
        assert(pending_of(rs).drop_first() =~= pending_of(rs.drop_first()));
    }
}

impl Tokenizer for JsonTokenizer {
    type Error = StreamError;

    open spec fn pending(&self) -> Pending {
        pending_of(self.results())
    }

    /// The error of the result `i`, where it is one (past the last result no
    /// read fails; there it is fixed, to `UnexpectedEof`).
    open spec fn error_at(&self, i: nat) -> StreamErrorView {
        if i < self.results().len() {
            self.results()[i as int]->Err_0
        } else {
            StreamErrorView::UnexpectedEof
        }
    }

    /// Get the next token from the stream.
    fn next_token(&mut self) -> (r: Result<Token, StreamError>)
        ensures
            final(self).input() == old(self).input(),
            final(self).results() == after_first(old(self).results()),
            read_view(r) == first_result(old(self).results()),
            !(r matches Ok(Token::Key(_))),
            r matches Ok(Token::Eof) ==> old(self).results().len() == 0 && final(self).results().len()
                == 0,
    {
        proof {
            use_type_invariant(&*self);
            lemma_pending_of_first(old(self).results());
            lemma_results_clean(self.input@, self.pos as nat);
            if old(self).results().len() > 0 && !self.holds_token() {
                assert(old(self).results()[0] == json_results(self.input@, self.pos as nat)[0]);
            }
        }
        let mut taken: Option<Token> = None;
        std::mem::swap(&mut taken, &mut self.peeked);
        match taken {
            Some(token) => {
                proof {
                    if token@ is Eof {
                        assert(old(self).results().len() == 0);
                    } else {
                        assert(old(self).results().drop_first() =~= self.results());
                        assert forall|i: nat| i < self.results().len() implies #[trigger]
                            self.results()[i as int] == old(self).results()[i + 1int] by {}
                    }
                    lemma_pending_of_first(old(self).results());
                }
                Ok(token)
            },
            None => {
                let r = self.read_next_token();
                proof {
                    lemma_results_unfold(old(self).input@, old(self).pos as nat);
                    lemma_token_advances(old(self).input@, old(self).pos as nat);
                    if read_view(r) matches Ok(TokenView::Eof) {
                        lemma_results_unfold(self.input@, self.pos as nat);
                    }
                }
                r
            },
        }
    }

    /// Peek at the next token without consuming it.
    fn peek_token(&mut self) -> (r: Result<&Token, StreamError>)
        ensures
            final(self).input() == old(self).input(),
            (match r {
                Ok(t) => Ok::<TokenView, StreamErrorView>(t@) == first_result(old(self).results())
                    && final(self).results() == old(self).results(),
                Err(e) => Err::<TokenView, StreamErrorView>(e@) == first_result(old(self).results())
                    && final(self).results() == after_first(old(self).results()),
            }),
            !(r matches Ok(t) && t is Key),
            r matches Ok(t) && t is Eof ==> old(self).results().len() == 0,
    {
        proof {
            use_type_invariant(&*self);
            lemma_pending_of_first(old(self).results());
            lemma_results_clean(self.input@, self.pos as nat);
            law_no_key_tokens(self.input@, self.pos as nat);
            if old(self).results().len() > 0 && !self.holds_token() {
                assert(old(self).results()[0] == json_results(self.input@, self.pos as nat)[0]);
            }
        }
        if self.peeked.is_none() {
            match self.read_next_token() {
                Ok(t) => {
                    proof {
                        lemma_results_unfold(old(self).input@, old(self).pos as nat);
                        lemma_token_advances(old(self).input@, old(self).pos as nat);
                        if t@ is Eof {
                            lemma_results_unfold(self.input@, self.pos as nat);
                        }
                    }
                    self.peeked = Some(t);
                },
                Err(e) => {
                    proof {
                        lemma_results_unfold(old(self).input@, old(self).pos as nat);
                        assert forall|i: nat| i < self.results().len() implies #[trigger]
                            self.results()[i as int] == old(self).results()[i + 1int] by {}
                    }
                    return Err(e);
                },
            }
        }
        Ok(self.peeked.as_ref().unwrap())
    }

    /// Expect a specific token, consuming it if it matches.
    fn expect_token(&mut self, expected: Token) -> (r: Result<(), StreamError>)
        ensures
            final(self).input() == old(self).input(),
            (match first_result(old(self).results()) {
                Ok(t) => if t == expected@ {
                    r is Ok && final(self).results() == after_first(old(self).results())
                } else {
                    final(self).results() == old(self).results() && (r matches Err(e) && e@
                        == StreamErrorView::UnexpectedToken {
                        expected: token_text(expected@),
                        found: t,
                    })
                },
                Err(x) => final(self).results() == after_first(old(self).results()) && (r matches Err(
                    e,
                ) && e@ == x),
            }),
    {
        proof {
            lemma_pending_of_first(old(self).results());
        }
        let mismatch: Option<Token> = match self.peek_token() {
            Ok(t) => {
                if t.same_as(&expected) {
                    None
                } else {
                    Some(t.duplicate())
                }
            },
            Err(e) => {
                return Err(e);
            },
        };
        match mismatch {
            None => match self.next_token() {
                Ok(_) => Ok(()),
                Err(e) => Err(e),
            },
            Some(found) => Err(
                StreamError::UnexpectedToken { expected: expected.display_text(), found },
            ),
        }
    }

    /// Expect and consume a key, returning the key string.
    fn expect_key(&mut self) -> (r: Result<String, StreamError>)
        ensures
            final(self).input() == old(self).input(),
            final(self).results() == after_first(old(self).results()),
            (match r {
                Ok(k) => first_result(old(self).results()) == Ok::<TokenView, StreamErrorView>(
                    TokenView::String(k@),
                ),
                Err(e) => match first_result(old(self).results()) {
                    Ok(t) => !(t is String) && e@ == StreamErrorView::UnexpectedToken {
                        expected: "object key"@,
                        found: t,
                    },
                    Err(x) => e@ == x,
                },
            }),
    {
        proof {
            lemma_pending_of_first(old(self).results());
        }
        match self.next_token() {
            Ok(Token::String(key)) => Ok(key),
            Ok(token) => Err(
                StreamError::UnexpectedToken { expected: "object key".to_owned(), found: token },
            ),
            Err(e) => Err(e),
        }
    }
}


/// An error of the JSON tokenizer reaches a deserializer's caller as a custom
/// error that carries the error's text.
pub proof fn law_tokenizer_errors_become_custom(x: StreamErrorView, y: Error)
    requires
        converted::<JsonTokenizer>(x, y),
    ensures
        y@ == ErrorView::Custom(stream_error_text(x)),
{
}

} // verus!
