//! Decoding the characters of a JSON string: UTF-8 byte sequences and `\u`
//! escapes.
use vstd::prelude::*;

use crate::streaming::{StreamError, StreamErrorView};

verus! {

/// The character with code `v`, if `v` is the code of a character (not a
/// surrogate, not above `0x10FFFF`).
pub open spec fn code_char(v: u32) -> Option<char> {
    if v <= 0xD7FF || (0xE000 <= v && v <= 0x10FFFF) {
        Some(v as char)
    } else {
        None
    }
}

/// `char::from_u32`: the character with code `v`, or `None` where `v` is not
/// the code of a character.
#[verifier::external_body]
pub(crate) fn char_from_code(v: u32) -> (r: Option<char>)
    ensures
        r == code_char(v),
{
    char::from_u32(v)
}

/// Whether byte `i` of the input exists and is a UTF-8 continuation byte.
pub open spec fn continuation(input: Seq<u8>, i: int) -> bool {
    0 <= i < input.len() && 0x80 <= input[i] && input[i] <= 0xBF
}

/// The character encoded in UTF-8 from byte `p` on, whose first byte is above
/// 127, and the number of bytes it takes: the well-formed sequences of the
/// Unicode standard (table 3-7), and nothing else.
pub open spec fn utf8_char(input: Seq<u8>, p: int) -> Option<(char, nat)> {
    let b0 = input[p] as int;
    let b1 = input[p + 1] as int;
    let b2 = input[p + 2] as int;
    let b3 = input[p + 3] as int;
    if 0xC2 <= b0 <= 0xDF {
        if continuation(input, p + 1) {
            match code_char(((b0 - 0xC0) * 64 + (b1 - 0x80)) as u32) {
                Some(c) => Some((c, 2)),
                None => None,
            }
        } else {
            None
        }
    } else if 0xE0 <= b0 <= 0xEF {
        let lo: int = if b0 == 0xE0 {
            0xA0
        } else {
            0x80
        };
        let hi: int = if b0 == 0xED {
            0x9F
        } else {
            0xBF
        };
        if p + 1 < input.len() && lo <= b1 <= hi && continuation(input, p + 2) {
            match code_char(((b0 - 0xE0) * 4096 + (b1 - 0x80) * 64 + (b2 - 0x80)) as u32) {
                Some(c) => Some((c, 3)),
                None => None,
            }
        } else {
            None
        }
    } else if 0xF0 <= b0 <= 0xF4 {
        let lo: int = if b0 == 0xF0 {
            0x90
        } else {
            0x80
        };
        let hi: int = if b0 == 0xF4 {
            0x8F
        } else {
            0xBF
        };
        if p + 1 < input.len() && lo <= b1 <= hi && continuation(input, p + 2) && continuation(
            input,
            p + 3,
        ) {
            match code_char(
                ((b0 - 0xF0) * 262144 + (b1 - 0x80) * 4096 + (b2 - 0x80) * 64 + (b3 - 0x80)) as u32,
            ) {
                Some(c) => Some((c, 4)),
                None => None,
            }
        } else {
            None
        }
    } else {
        None
    }
}

/// The value of a hexadecimal digit.
pub open spec fn hex_value(b: u8) -> Option<u32> {
    if 48 <= b && b <= 57 {
        Some((b - 48) as u32)
    } else if 97 <= b && b <= 102 {
        Some((b - 87) as u32)
    } else if 65 <= b && b <= 70 {
        Some((b - 55) as u32)
    } else {
        None
    }
}

/// The value of the four hexadecimal digits from byte `q` on.
pub open spec fn hex4(input: Seq<u8>, q: int) -> Option<u32> {
    match (
        hex_value(input[q]),
        hex_value(input[q + 1]),
        hex_value(input[q + 2]),
        hex_value(input[q + 3]),
    ) {
        (Some(a), Some(b), Some(c), Some(d)) => Some((a * 4096 + b * 256 + c * 16 + d) as u32),
        _ => None,
    }
}

pub open spec fn is_high_surrogate(v: u32) -> bool {
    0xD800 <= v && v <= 0xDBFF
}

pub open spec fn is_low_surrogate(v: u32) -> bool {
    0xDC00 <= v && v <= 0xDFFF
}

/// The character a surrogate pair stands for.
pub open spec fn pair_code(hi: u32, lo: u32) -> u32 {
    (0x10000 + (hi - 0xD800) * 1024 + (lo - 0xDC00)) as u32
}

/// Reading the rest of a `\u` escape from byte `q` on, whose four digits name
/// the high surrogate `v`: a `\u` escape of a low surrogate must follow.
pub open spec fn pair_escape(input: Seq<u8>, q: int, v: u32) -> (Result<char, StreamErrorView>, nat) {
    if q + 6 <= input.len() && input[q + 4] == 92 && input[q + 5] == 117 {
        if q + 10 > input.len() {
            (Err(StreamErrorView::UnexpectedEof), input.len())
        } else {
            match hex4(input, q + 6) {
                None => (Err(StreamErrorView::InvalidJson("Invalid unicode escape"@)), (q + 10) as nat),
                Some(w) => if is_low_surrogate(w) {
                    match code_char(pair_code(v, w)) {
                        Some(c) => (Ok(c), (q + 10) as nat),
                        None => (
                            Err(StreamErrorView::InvalidJson("Invalid unicode escape"@)),
                            (q + 10) as nat,
                        ),
                    }
                } else {
                    (
                        Err(StreamErrorView::InvalidJson("Lone surrogate in unicode escape"@)),
                        (q + 10) as nat,
                    )
                },
            }
        }
    } else {
        (Err(StreamErrorView::InvalidJson("Lone surrogate in unicode escape"@)), (q + 4) as nat)
    }
}

/// Reading the four hexadecimal digits of a `\u` escape from byte `q` on (after
/// the `u`): the character it names and the position after it. A high
/// surrogate must be followed by a `\u` escape of a low surrogate, and the pair
/// names one character; any other surrogate is refused.
pub open spec fn unicode_escape(input: Seq<u8>, q: int) -> (Result<char, StreamErrorView>, nat) {
    if q + 4 > input.len() {
        (Err(StreamErrorView::UnexpectedEof), input.len())
    } else {
        match hex4(input, q) {
            None => (Err(StreamErrorView::InvalidJson("Invalid unicode escape"@)), (q + 4) as nat),
            Some(v) => if is_low_surrogate(v) {
                (
                    Err(StreamErrorView::InvalidJson("Lone surrogate in unicode escape"@)),
                    (q + 4) as nat,
                )
            } else if is_high_surrogate(v) {
                pair_escape(input, q, v)
            } else {
                match code_char(v) {
                    Some(c) => (Ok(c), (q + 4) as nat),
                    None => (
                        Err(StreamErrorView::InvalidJson("Invalid unicode escape"@)),
                        (q + 4) as nat,
                    ),
                }
            },
        }
    }
}

/// The value of a hexadecimal digit.
fn hex_digit(b: u8) -> (r: Option<u32>)
    ensures
        r == hex_value(b),
{
    if 48 <= b && b <= 57 {
        Some((b - 48) as u32)
    } else if 97 <= b && b <= 102 {
        Some((b - 87) as u32)
    } else if 65 <= b && b <= 70 {
        Some((b - 55) as u32)
    } else {
        None
    }
}

/// The value of the four hexadecimal digits from byte `q` on.
fn hex4_at(input: &Vec<u8>, q: usize) -> (r: Option<u32>)
    requires
        q + 4 <= input.len(),
    ensures
        r == hex4(input@, q as int),
{
    match (hex_digit(input[q]), hex_digit(input[q + 1]), hex_digit(input[q + 2]), hex_digit(input[q + 3])) {
        (Some(a), Some(b), Some(c), Some(d)) => Some(a * 4096 + b * 256 + c * 16 + d),
        _ => None,
    }
}

/// The model of an escape read.
pub open spec fn char_read_view(r: Result<char, StreamError>) -> Result<char, StreamErrorView> {
    match r {
        Ok(c) => Ok(c),
        Err(e) => Err(e@),
    }
}

/// Read the rest of a `\u` escape that names the high surrogate `v`.
fn pair_escape_at(input: &Vec<u8>, q: usize, v: u32) -> (r: (Result<char, StreamError>, usize))
    requires
        q + 4 <= input.len(),
        is_high_surrogate(v),
    ensures
        (char_read_view(r.0), r.1 as nat) == pair_escape(input@, q as int, v),
{
    let len = input.len();
    if len - q >= 6 && input[q + 4] == 92 && input[q + 5] == 117 {
        if len - q < 10 {
            (Err(StreamError::UnexpectedEof), len)
        } else {
            match hex4_at(input, q + 6) {
                None => (Err(StreamError::InvalidJson("Invalid unicode escape".to_owned())), q + 10),
                Some(w) => {
                    if 0xDC00 <= w && w <= 0xDFFF {
                        let code: u32 = 0x10000 + (v - 0xD800) * 1024 + (w - 0xDC00);
                        match char_from_code(code) {
                            Some(c) => (Ok(c), q + 10),
                            None => (
                                Err(StreamError::InvalidJson("Invalid unicode escape".to_owned())),
                                q + 10,
                            ),
                        }
                    } else {
                        (
                            Err(StreamError::InvalidJson("Lone surrogate in unicode escape".to_owned())),
                            q + 10,
                        )
                    }
                },
            }
        }
    } else {
        (Err(StreamError::InvalidJson("Lone surrogate in unicode escape".to_owned())), q + 4)
    }
}

/// Read a `\u` escape from byte `q` on (after the `u`): the character and the
/// position after it.
pub fn unicode_escape_at(input: &Vec<u8>, q: usize) -> (r: (Result<char, StreamError>, usize))
    requires
        q <= input.len(),
    ensures
        (char_read_view(r.0), r.1 as nat) == unicode_escape(input@, q as int),
{
    let len = input.len();
    if len - q < 4 {
        return (Err(StreamError::UnexpectedEof), len);
    }
    match hex4_at(input, q) {
        None => (Err(StreamError::InvalidJson("Invalid unicode escape".to_owned())), q + 4),
        Some(v) => {
            if 0xDC00 <= v && v <= 0xDFFF {
                (Err(StreamError::InvalidJson("Lone surrogate in unicode escape".to_owned())), q + 4)
            } else if 0xD800 <= v && v <= 0xDBFF {
                pair_escape_at(input, q, v)
            } else {
                match char_from_code(v) {
                    Some(c) => (Ok(c), q + 4),
                    None => (
                        Err(StreamError::InvalidJson("Invalid unicode escape".to_owned())),
                        q + 4,
                    ),
                }
            }
        },
    }
}

/// Decode the UTF-8 character whose first byte, above 127, is byte `p`: the
/// character and the number of bytes it takes.
pub fn utf8_char_at(input: &Vec<u8>, p: usize) -> (r: Option<(char, usize)>)
    requires
        p < input.len(),
    ensures
        (match r {
            Some((c, n)) => utf8_char(input@, p as int) == Some((c, n as nat)),
            None => utf8_char(input@, p as int) is None,
        }),
{
    let len = input.len();
    let b0 = input[p];
    let cont = |i: usize| -> (ok: bool)
        ensures ok == continuation(input@, i as int)
        { i < len && 0x80 <= input[i] && input[i] <= 0xBF };
    if 0xC2 <= b0 && b0 <= 0xDF {
        if len - p > 1 && cont(p + 1) {
            let code: u32 = (b0 as u32 - 0xC0) * 64 + (input[p + 1] as u32 - 0x80);
            match char_from_code(code) {
                Some(c) => Some((c, 2)),
                None => None,
            }
        } else {
            None
        }
    } else if 0xE0 <= b0 && b0 <= 0xEF {
        let lo: u8 = if b0 == 0xE0 { 0xA0 } else { 0x80 };
        let hi: u8 = if b0 == 0xED { 0x9F } else { 0xBF };
        if len - p > 2 && lo <= input[p + 1] && input[p + 1] <= hi && cont(p + 2) {
            let code: u32 = (b0 as u32 - 0xE0) * 4096 + (input[p + 1] as u32 - 0x80) * 64 + (
            input[p + 2] as u32 - 0x80);
            match char_from_code(code) {
                Some(c) => Some((c, 3)),
                None => None,
            }
        } else {
            None
        }
    } else if 0xF0 <= b0 && b0 <= 0xF4 {
        let lo: u8 = if b0 == 0xF0 { 0x90 } else { 0x80 };
        let hi: u8 = if b0 == 0xF4 { 0x8F } else { 0xBF };
        if len - p > 3 && lo <= input[p + 1] && input[p + 1] <= hi && cont(p + 2) && cont(p + 3) {
            let code: u32 = (b0 as u32 - 0xF0) * 262144 + (input[p + 1] as u32 - 0x80) * 4096 + (
            input[p + 2] as u32 - 0x80) * 64 + (input[p + 3] as u32 - 0x80);
            match char_from_code(code) {
                Some(c) => Some((c, 4)),
                None => None,
            }
        } else {
            None
        }
    } else {
        None
    }
}

/// The UTF-8 encoding of a character: one byte below `0x80`, else a lead byte
/// and continuation bytes carrying six bits each.
pub open spec fn utf8_encoding(c: char) -> Seq<u8> {
    let v = c as int;
    if v < 0x80 {
        seq![v as u8]
    } else if v < 0x800 {
        seq![(0xC0 + v / 64) as u8, (0x80 + v % 64) as u8]
    } else if v < 0x10000 {
        seq![(0xE0 + v / 4096) as u8, (0x80 + (v / 64) % 64) as u8, (0x80 + v % 64) as u8]
    } else {
        seq![
            (0xF0 + v / 262144) as u8,
            (0x80 + (v / 4096) % 64) as u8,
            (0x80 + (v / 64) % 64) as u8,
            (0x80 + v % 64) as u8,
        ]
    }
}

proof fn lemma_code_char_of(c: char)
    ensures
        code_char(c as u32) == Some(c),
{
}

/// A number split into groups of six bits.
proof fn lemma_six_bit_groups(v: int)
    requires
        0 <= v,
    ensures
        v == 64 * (v / 64) + v % 64,
        v / 64 == 64 * (v / 4096) + (v / 64) % 64,
        v / 4096 == 64 * (v / 262144) + (v / 4096) % 64,
        0 <= v % 64 < 64,
        0 <= (v / 64) % 64 < 64,
        0 <= (v / 4096) % 64 < 64,
{
    vstd::arithmetic::div_mod::lemma_fundamental_div_mod(v, 64);
    vstd::arithmetic::div_mod::lemma_fundamental_div_mod(v / 64, 64);
    vstd::arithmetic::div_mod::lemma_fundamental_div_mod(v / 4096, 64);
    vstd::arithmetic::div_mod::lemma_div_denominator(v, 64, 64);
    vstd::arithmetic::div_mod::lemma_div_denominator(v, 4096, 64);
    vstd::arithmetic::div_mod::lemma_mod_pos_bound(v, 64);
    vstd::arithmetic::div_mod::lemma_mod_pos_bound(v / 64, 64);
    vstd::arithmetic::div_mod::lemma_mod_pos_bound(v / 4096, 64);
}

/// Decoding reads back what encoding writes: where the UTF-8 encoding of a
/// character above ASCII stands at `p`, reading there gives that character and
/// the length of its encoding.
pub proof fn law_utf8_decodes_encoding(input: Seq<u8>, p: int, c: char)
    requires
        0 <= p,
        c as int >= 0x80,
        p + utf8_encoding(c).len() <= input.len(),
        input.subrange(p, p + utf8_encoding(c).len()) == utf8_encoding(c),
    ensures
        utf8_char(input, p) == Some((c, utf8_encoding(c).len())),
{
    let v = c as int;
    let e = utf8_encoding(c);
    let n = e.len() as int;
    assert forall|i: int| 0 <= i < n implies input[p + i] == #[trigger] e[i] by {
        assert(input.subrange(p, p + n)[i] == input[p + i]);
    }
    lemma_code_char_of(c);
    assert(0 <= v <= 0x10FFFF);
    assert(v <= 0xD7FF || 0xE000 <= v);
    if v < 0x800 {
        assert(input[p] == e[0] && input[p + 1] == e[1]);
        assert(2 <= v / 64 < 32 && 0 <= v % 64 < 64 && (v / 64) * 64 + v % 64 == v) by (nonlinear_arith)
            requires
                0x80 <= v < 0x800,
        ;
    } else if v < 0x10000 {
        assert(input[p] == e[0] && input[p + 1] == e[1] && input[p + 2] == e[2]);
        lemma_six_bit_groups(v);
        assert(0 <= v / 4096 < 16 && (v / 4096) * 4096 + ((v / 64) % 64) * 64 + v % 64 == v);
        assert(v / 4096 == 0 ==> (v / 64) % 64 >= 0x20) by (nonlinear_arith)
            requires
                0x800 <= v < 0x10000,
        ;
        assert(v / 4096 == 0xD ==> (v / 64) % 64 < 0x20) by (nonlinear_arith)
            requires
                0x800 <= v < 0x10000,
                v <= 0xD7FF || 0xE000 <= v,
        ;
    } else {
        assert(input[p] == e[0] && input[p + 1] == e[1] && input[p + 2] == e[2] && input[p + 3]
            == e[3]);
        lemma_six_bit_groups(v);
        assert(0 <= v / 262144 < 5 && (v / 262144) * 262144 + ((v / 4096) % 64) * 4096 + ((v / 64)
            % 64) * 64 + v % 64 == v);
        assert(v / 262144 == 0 ==> (v / 4096) % 64 >= 0x10) by (nonlinear_arith)
            requires
                0x10000 <= v <= 0x10FFFF,
        ;
        assert(v / 262144 == 4 ==> (v / 4096) % 64 < 0x10) by (nonlinear_arith)
            requires
                0x10000 <= v <= 0x10FFFF,
        ;
    }
}

/// Bytes that cannot begin a character of more than one byte: a continuation
/// byte, a lead byte of an overlong two-byte form, or one beyond `0xF4`.
pub proof fn law_utf8_refuses_bad_lead_bytes(input: Seq<u8>, p: int)
    requires
        0 <= p < input.len(),
        (0x80 <= input[p] <= 0xC1) || 0xF5 <= input[p],
    ensures
        utf8_char(input, p) is None,
{
}

/// Whether byte `b` is a hexadecimal digit (either case) of value `d`.
pub open spec fn hex_digit_of(b: u8, d: int) -> bool {
    ||| (0 <= d < 10 && b == 48 + d)
    ||| (10 <= d < 16 && (b == 87 + d || b == 55 + d))
}

/// Whether `input[q..q + 4]` are the four hexadecimal digits of `v`.
pub open spec fn hex_digits_of(input: Seq<u8>, q: int, v: int) -> bool {
    &&& hex_digit_of(input[q], v / 4096)
    &&& hex_digit_of(input[q + 1], (v / 256) % 16)
    &&& hex_digit_of(input[q + 2], (v / 16) % 16)
    &&& hex_digit_of(input[q + 3], v % 16)
}

/// Four hexadecimal digits spell the number they stand for.
proof fn lemma_hex4_reads_digits(input: Seq<u8>, q: int, v: int)
    requires
        0 <= q,
        q + 4 <= input.len(),
        0 <= v < 0x10000,
        hex_digits_of(input, q, v),
    ensures
        hex4(input, q) == Some(v as u32),
{
    vstd::arithmetic::div_mod::lemma_fundamental_div_mod(v, 16);
    vstd::arithmetic::div_mod::lemma_fundamental_div_mod(v / 16, 16);
    vstd::arithmetic::div_mod::lemma_fundamental_div_mod(v / 256, 16);
    vstd::arithmetic::div_mod::lemma_div_denominator(v, 16, 16);
    vstd::arithmetic::div_mod::lemma_div_denominator(v, 256, 16);
    vstd::arithmetic::div_mod::lemma_mod_pos_bound(v, 16);
    vstd::arithmetic::div_mod::lemma_mod_pos_bound(v / 16, 16);
    vstd::arithmetic::div_mod::lemma_mod_pos_bound(v / 256, 16);
    assert(v / 4096 < 16);
}

/// A `\u` escape names the character whose code its four hexadecimal digits
/// spell (either case), for a character below `0x10000`.
pub proof fn law_unicode_escape_names_code(input: Seq<u8>, q: int, c: char)
    requires
        0 <= q,
        q + 4 <= input.len(),
        (c as int) < 0x10000,
        hex_digits_of(input, q, c as int),
    ensures
        unicode_escape(input, q) == (Ok::<char, StreamErrorView>(c), (q + 4) as nat),
{
    lemma_hex4_reads_digits(input, q, c as int);
    lemma_code_char_of(c);
}

/// A character beyond `0xFFFF` is named by two `\u` escapes, a high then a low
/// surrogate, that split its code less `0x10000` into two ten-bit halves.
pub proof fn law_surrogate_pair_names_code(input: Seq<u8>, q: int, c: char)
    requires
        0 <= q,
        q + 10 <= input.len(),
        (c as int) >= 0x10000,
        hex_digits_of(input, q, 0xD800 + (c as int - 0x10000) / 1024),
        input[q + 4] == 92,
        input[q + 5] == 117,
        hex_digits_of(input, q + 6, 0xDC00 + (c as int - 0x10000) % 1024),
    ensures
        unicode_escape(input, q) == (Ok::<char, StreamErrorView>(c), (q + 10) as nat),
{
    let w = c as int - 0x10000;
    assert(w < 0x100000);
    vstd::arithmetic::div_mod::lemma_fundamental_div_mod(w, 1024);
    vstd::arithmetic::div_mod::lemma_mod_pos_bound(w, 1024);
    assert(0 <= w / 1024 < 1024);
    let hi = 0xD800 + w / 1024;
    let lo = 0xDC00 + w % 1024;
    lemma_hex4_reads_digits(input, q, hi);
    lemma_hex4_reads_digits(input, q + 6, lo);
    assert(pair_code(hi as u32, lo as u32) == c as u32);
    lemma_code_char_of(c);
}

} // verus!
