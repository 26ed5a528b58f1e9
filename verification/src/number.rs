//! The syntax and the values of numbers as written in the input.
use vstd::prelude::*;

verus! {

pub open spec fn is_digit(c: char) -> bool {
    '0' <= c && c <= '9'
}

pub open spec fn is_sign(c: char) -> bool {
    c == '+' || c == '-'
}

pub open spec fn is_exp_mark(c: char) -> bool {
    c == 'e' || c == 'E'
}

pub open spec fn all_digits(s: Seq<char>) -> bool {
    forall|i: int| 0 <= i < s.len() ==> is_digit(#[trigger] s[i])
}

/// The value of a string of decimal digits (zero for the empty string).
pub open spec fn digits_value(s: Seq<char>) -> nat
    decreases s.len(),
{
    if s.len() == 0 {
        0
    } else {
        digits_value(s.drop_last()) * 10 + (s.last() as int - 48) as nat
    }
}

/// The mantissa of a decimal float literal:
/// `Digit+ | Digit+ '.' Digit* | Digit* '.' Digit+`.
pub open spec fn mantissa_syntax(m: Seq<char>) -> bool {
    ||| (m.len() > 0 && all_digits(m))
    ||| exists|d: int|
        0 <= d < m.len() && #[trigger] m[d] == '.' && all_digits(m.take(d)) && all_digits(
            m.skip(d + 1),
        ) && m.len() > 1
}

/// The exponent of a decimal float literal: `[eE] Sign? Digit+`.
pub open spec fn exponent_syntax(x: Seq<char>) -> bool {
    &&& x.len() >= 2
    &&& is_exp_mark(x[0])
    &&& (all_digits(x.skip(1)) || (x.len() >= 3 && is_sign(x[1]) && all_digits(x.skip(2))))
}

/// A decimal float literal without its sign: a mantissa, then an optional exponent.
pub open spec fn unsigned_float_syntax(b: Seq<char>) -> bool {
    ||| mantissa_syntax(b)
    ||| exists|k: int|
        0 <= k < b.len() && mantissa_syntax(#[trigger] b.take(k)) && exponent_syntax(b.skip(k))
}

/// The decimal float literals that `f64::from_str` accepts (its documented
/// grammar, leaving out the spellings of infinity and NaN): `Sign? Number`.
pub open spec fn float_syntax(s: Seq<char>) -> bool {
    if s.len() > 0 && is_sign(s[0]) {
        unsigned_float_syntax(s.drop_first())
    } else {
        unsigned_float_syntax(s)
    }
}

pub fn char_is_digit(c: char) -> (r: bool)
    ensures
        r == is_digit(c),
{
    '0' <= c && c <= '9'
}

/// A mantissa holds only digits and dots.
proof fn lemma_mantissa_chars(m: Seq<char>, j: int)
    requires
        mantissa_syntax(m),
        0 <= j < m.len(),
    ensures
        is_digit(m[j]) || m[j] == '.',
{
    if !(m.len() > 0 && all_digits(m)) {
        let d = choose|d: int|
            0 <= d < m.len() && #[trigger] m[d] == '.' && all_digits(m.take(d)) && all_digits(
                m.skip(d + 1),
            ) && m.len() > 1;
        if j < d {
            assert(m.take(d)[j] == m[j]);
        } else if j > d {
            assert(m.skip(d + 1)[j - d - 1] == m[j]);
        }
    }
}

/// Whether `cs[lo..hi]` is all digits.
fn digits_ok(cs: &Vec<char>, lo: usize, hi: usize) -> (r: bool)
    requires
        lo <= hi <= cs.len(),
    ensures
        r == all_digits(cs@.subrange(lo as int, hi as int)),
{
    let mut i = lo;
    while i < hi
        invariant
            lo <= i <= hi <= cs.len(),
            all_digits(cs@.subrange(lo as int, i as int)),
        decreases hi - i,
    {
        if !char_is_digit(cs[i]) {
            assert(cs@.subrange(lo as int, hi as int)[i - lo] == cs@[i as int]);
            return false;
        }
        assert forall|j: int| 0 <= j < i + 1 - lo implies is_digit(
            #[trigger] cs@.subrange(lo as int, i + 1)[j],
        ) by {
            if j < i - lo {
                assert(cs@.subrange(lo as int, i as int)[j] == cs@.subrange(lo as int, i + 1)[j]);
            }
        }
        i = i + 1;
    }
    true
}

/// Whether `cs[lo..hi]` is a mantissa.
fn mantissa_ok(cs: &Vec<char>, lo: usize, hi: usize) -> (r: bool)
    requires
        lo <= hi <= cs.len(),
    ensures
        r == mantissa_syntax(cs@.subrange(lo as int, hi as int)),
{
    let ghost m = cs@.subrange(lo as int, hi as int);
    let mut dot: Option<usize> = None;
    let mut i = lo;
    while i < hi
        invariant
            lo <= i <= hi <= cs.len(),
            m == cs@.subrange(lo as int, hi as int),
            (match dot {
                None => forall|j: int| 0 <= j < i - lo ==> is_digit(#[trigger] m[j]),
                Some(d) => lo <= d < i && m[d - lo] == '.' && forall|j: int|
                    0 <= j < i - lo && j != d - lo ==> is_digit(#[trigger] m[j]),
            }),
        decreases hi - i,
    {
        let c = cs[i];
        assert(m[i - lo] == c);
        if char_is_digit(c) {
        } else if c == '.' && dot.is_none() {
            dot = Some(i);
        } else {
            proof {
                // Either a character that belongs in no mantissa, or a second dot.
                let bad = (i - lo) as int;
                assert(!is_digit(m[bad]));
                if m.len() > 0 && all_digits(m) {
                    assert(is_digit(m[bad]));
                }
                if exists|d: int|
                    0 <= d < m.len() && #[trigger] m[d] == '.' && all_digits(m.take(d))
                        && all_digits(m.skip(d + 1)) && m.len() > 1 {
                    let d = choose|d: int|
                        0 <= d < m.len() && #[trigger] m[d] == '.' && all_digits(m.take(d))
                            && all_digits(m.skip(d + 1)) && m.len() > 1;
                    // Some position other than d holds a non-digit.
                    let other: int = if bad != d {
                        bad
                    } else {
                        (dot.unwrap() - lo) as int
                    };
                    assert(other != d);
                    assert(!is_digit(m[other]));
                    if other < d {
                        assert(m.take(d)[other] == m[other]);
                    } else {
                        assert(m.skip(d + 1)[other - d - 1] == m[other]);
                    }
                }
            }
            return false;
        }
        i = i + 1;
    }
    match dot {
        None => {
            proof {
                assert(all_digits(m));
                if exists|d: int|
                    0 <= d < m.len() && #[trigger] m[d] == '.' && all_digits(m.take(d))
                        && all_digits(m.skip(d + 1)) && m.len() > 1 {
                    let d = choose|d: int|
                        0 <= d < m.len() && #[trigger] m[d] == '.' && all_digits(m.take(d))
                            && all_digits(m.skip(d + 1)) && m.len() > 1;
                    assert(is_digit(m[d]));
                }
            }
            hi > lo
        },
        Some(d) => {
            proof {
                let dd = (d - lo) as int;
                assert(!is_digit(m[dd]));
                assert(all_digits(m.take(dd))) by {
                    assert forall|j: int| 0 <= j < dd implies is_digit(#[trigger] m.take(dd)[j]) by {
                        assert(m.take(dd)[j] == m[j]);
                    }
                }
                assert(all_digits(m.skip(dd + 1))) by {
                    assert forall|j: int| 0 <= j < m.len() - dd - 1 implies is_digit(
                        #[trigger] m.skip(dd + 1)[j],
                    ) by {
                        assert(m.skip(dd + 1)[j] == m[j + dd + 1]);
                    }
                }
            }
            hi - lo > 1
        },
    }
}

/// Whether `cs[lo..hi]` is an exponent.
fn exponent_ok(cs: &Vec<char>, lo: usize, hi: usize) -> (r: bool)
    requires
        lo <= hi <= cs.len(),
    ensures
        r == exponent_syntax(cs@.subrange(lo as int, hi as int)),
{
    let ghost x = cs@.subrange(lo as int, hi as int);
    if hi - lo < 2 {
        return false;
    }
    assert(x[0] == cs@[lo as int]);
    assert(x[1] == cs@[lo + 1]);
    if !(cs[lo] == 'e' || cs[lo] == 'E') {
        return false;
    }
    assert(x.skip(1) =~= cs@.subrange(lo + 1, hi as int));
    assert(x.skip(2) =~= cs@.subrange(lo + 2, hi as int));
    if digits_ok(cs, lo + 1, hi) {
        return true;
    }
    hi - lo >= 3 && (cs[lo + 1] == '+' || cs[lo + 1] == '-') && digits_ok(cs, lo + 2, hi)
}

/// Whether the characters form a decimal float literal (see `float_syntax`).
pub fn float_ok(cs: &Vec<char>) -> (r: bool)
    ensures
        r == float_syntax(cs@),
{
    let len = cs.len();
    let start: usize = if len > 0 && (cs[0] == '+' || cs[0] == '-') {
        1
    } else {
        0
    };
    let ghost b = cs@.subrange(start as int, len as int);
    assert(b =~= if cs@.len() > 0 && is_sign(cs@[0]) {
        cs@.drop_first()
    } else {
        cs@
    });
    let mut k = start;
    while k < len && !(cs[k] == 'e' || cs[k] == 'E')
        invariant
            start <= k <= len == cs.len(),
            forall|j: int| start <= j < k ==> !is_exp_mark(#[trigger] cs@[j]),
        decreases len - k,
    {
        k = k + 1;
    }
    let ghost kk = (k - start) as int;
    assert(b.take(kk) =~= cs@.subrange(start as int, k as int));
    assert(b.skip(kk) =~= cs@.subrange(k as int, len as int));
    // Any split point of a literal with an exponent is the first exponent mark.
    assert forall|k2: int|
        0 <= k2 < b.len() && mantissa_syntax(#[trigger] b.take(k2)) && exponent_syntax(
            b.skip(k2),
        ) implies k2 == kk by {
        assert(b.skip(k2)[0] == b[k2]);
        assert(is_exp_mark(b[k2]));
        if k2 < kk {
            assert(b[k2] == cs@[start + k2]);
        } else if k2 > kk {
            lemma_mantissa_chars(b.take(k2), kk);
            assert(b.take(k2)[kk] == b[kk]);
            assert(b[kk] == cs@[k as int]);
        }
    }
    let m_ok = mantissa_ok(cs, start, k);
    if k == len {
        assert(b.take(kk) =~= b);
        proof {
            if !m_ok {
                assert(!mantissa_syntax(b));
            }
        }
        return m_ok;
    }
    assert(b[kk] == cs@[k as int]);
    proof {
        if mantissa_syntax(b) {
            lemma_mantissa_chars(b, kk);
        }
    }
    if !m_ok {
        return false;
    }
    exponent_ok(cs, k, len)
}

/// A prefix of a digit string is worth no more than the whole string.
proof fn lemma_digits_value_prefix(s: Seq<char>, j: int)
    requires
        all_digits(s),
        0 <= j <= s.len(),
    ensures
        digits_value(s.take(j)) <= digits_value(s),
    decreases s.len(),
{
    if j < s.len() {
        let t = s.drop_last();
        assert(all_digits(t)) by {
            assert forall|i: int| 0 <= i < t.len() implies is_digit(#[trigger] t[i]) by {
                assert(t[i] == s[i]);
            }
        }
        lemma_digits_value_prefix(t, j);
        assert(t.take(j) =~= s.take(j));
        assert(is_digit(s[s.len() - 1]));
    } else {
        assert(s.take(j) =~= s);
    }
}

/// The value of the digit string `cs[start..]`, if it is a non-empty string of
/// digits whose value fits in a `u64`.
pub fn parse_digits(cs: &Vec<char>, start: usize) -> (r: Option<u64>)
    requires
        start <= cs.len(),
    ensures
        (match r {
            Some(v) => start < cs.len() && all_digits(cs@.skip(start as int)) && v == digits_value(
                cs@.skip(start as int),
            ),
            None => !(start < cs.len() && all_digits(cs@.skip(start as int)) && digits_value(
                cs@.skip(start as int),
            ) <= u64::MAX),
        }),
{
    let ghost s = cs@.skip(start as int);
    let mut acc: u64 = 0;
    let mut i = start;
    while i < cs.len()
        invariant
            start <= i <= cs.len(),
            s == cs@.skip(start as int),
            all_digits(s.take(i - start)),
            acc == digits_value(s.take(i - start)),
        decreases cs.len() - i,
    {
        let c = cs[i];
        assert(s[i - start] == c);
        let ghost pre = s.take(i - start);
        let ghost next = s.take(i - start + 1);
        assert(next.drop_last() =~= pre);
        assert(next.last() == c);
        if !char_is_digit(c) {
            return None;
        }
        assert(all_digits(next)) by {
            assert forall|j: int| 0 <= j < next.len() implies is_digit(#[trigger] next[j]) by {
                if j < pre.len() {
                    assert(next[j] == pre[j]);
                }
            }
        }
        let d: u64 = (c as u32 - 48) as u64;
        assert(digits_value(next) == acc * 10 + d);
        let step = acc.checked_mul(10);
        let step = match step {
            Some(x) => x.checked_add(d),
            None => None,
        };
        match step {
            Some(x) => {
                acc = x;
            },
            None => {
                proof {
                    if all_digits(s) {
                        lemma_digits_value_prefix(s, i - start + 1);
                    }
                }
                return None;
            },
        }
        i = i + 1;
    }
    assert(s.take(i - start) =~= s);
    if i == start {
        return None;
    }
    Some(acc)
}

/// Digits, then an exponent mark (`e` or `E`), an optional sign and more digits,
/// form a float literal exactly when digits follow the mark (and the sign):
/// `1e5`, `1E5`, `1e+5` and `1e-5` are floats, `1e` and `1e+` are not.
pub proof fn law_float_exponents(d: Seq<char>, mark: char, sign: Seq<char>, x: Seq<char>)
    requires
        d.len() > 0,
        forall|i: int| 0 <= i < d.len() ==> '0' <= #[trigger] d[i] <= '9',
        mark == 'e' || mark == 'E',
        sign == Seq::<char>::empty() || sign == seq!['+'] || sign == seq!['-'],
        forall|i: int| 0 <= i < x.len() ==> '0' <= #[trigger] x[i] <= '9',
    ensures
        float_syntax(d + seq![mark] + sign + x) <==> x.len() > 0,
{
    let s = d + seq![mark] + sign + x;
    let k = d.len() as int;
    assert(s[0] == d[0]);
    assert(!is_sign(s[0]));
    assert(s.take(k) =~= d);
    assert(s.skip(k) =~= seq![mark] + sign + x);
    if x.len() > 0 {
        let e = s.skip(k);
        if sign.len() == 0 {
            assert(e.skip(1) =~= x);
        } else {
            assert(e.skip(2) =~= x);
        }
        assert(mantissa_syntax(s.take(k)));
        assert(exponent_syntax(s.skip(k)));
    } else {
        // The mark is the only letter, and only a sign may follow it.
        assert forall|j: int| 0 <= j < s.len() && j != k implies #[trigger] s[j] != 'e' && s[j] != 'E'
            && s[j] != '.' by {
            if j < k {
                assert(s[j] == d[j]);
            } else {
                assert(s[j] == sign[j - k - 1]);
            }
        }
        assert(s[k] == mark);
        if mantissa_syntax(s) {
            lemma_mantissa_chars(s, k);
        }
        if exists|m: int|
            0 <= m < s.len() && mantissa_syntax(#[trigger] s.take(m)) && exponent_syntax(s.skip(m)) {
            let m = choose|m: int|
                0 <= m < s.len() && mantissa_syntax(#[trigger] s.take(m)) && exponent_syntax(
                    s.skip(m),
                );
            assert(s.skip(m)[0] == s[m]);
            if m == k {
                let e = s.skip(m);
                assert(e.len() == 1 + sign.len());
                if sign.len() == 1 {
                    assert(e[1] == sign[0]);
                    assert(e.skip(1)[0] == e[1]);
                }
            }
        }
    }
}

/// Digits, a dot and any digits form a float literal, with or without a sign
/// in front: `1.5`, `1.` and `-0.25` are floats.
pub proof fn law_float_decimals(a: Seq<char>, b: Seq<char>, sign: Seq<char>)
    requires
        a.len() > 0,
        forall|i: int| 0 <= i < a.len() ==> '0' <= #[trigger] a[i] <= '9',
        forall|i: int| 0 <= i < b.len() ==> '0' <= #[trigger] b[i] <= '9',
        sign == Seq::<char>::empty() || sign == seq!['+'] || sign == seq!['-'],
    ensures
        float_syntax(sign + a + seq!['.'] + b),
{
    let m = a + seq!['.'] + b;
    let k = a.len() as int;
    assert(m[k] == '.');
    assert(m.take(k) =~= a);
    assert(m.skip(k + 1) =~= b);
    assert(mantissa_syntax(m));
    let s = sign + m;
    if sign.len() == 0 {
        assert(s =~= m);
        assert(s[0] == a[0]);
    } else {
        assert(s.drop_first() =~= m);
    }
}

} // verus!
