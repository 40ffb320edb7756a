//! Typing of unquoted scalar tokens: keywords, integers (within and beyond `i64`), floats.

use vstd::prelude::*;
use crate::text::{
    eq_ignore_ascii_case, is_ascii_alnum, is_ascii_digit, range_eq_ignore_ascii_case,
    string_of,
};
use crate::value::{SVal, Value};

verus! {

pub open spec fn seq_true() -> Seq<char> {
    seq!['t', 'r', 'u', 'e']
}

pub open spec fn seq_false() -> Seq<char> {
    seq!['f', 'a', 'l', 's', 'e']
}

pub open spec fn seq_null() -> Seq<char> {
    seq!['n', 'u', 'l', 'l']
}

/// A HOCON keyword (`true`, `false`, `null`), in any ASCII case.
pub open spec fn is_bare_kw(t: Seq<char>) -> bool {
    eq_ignore_ascii_case(t, seq_true()) || eq_ignore_ascii_case(t, seq_false())
        || eq_ignore_ascii_case(t, seq_null())
}

pub open spec fn is_sign(c: char) -> bool {
    c == '+' || c == '-'
}

/// Length of the optional leading sign.
pub open spec fn sign_len(t: Seq<char>) -> int {
    if t.len() > 0 && is_sign(t[0]) {
        1
    } else {
        0
    }
}

/// `[+-]?[0-9]+`: an integer literal, whatever its size.
pub open spec fn is_int_token(t: Seq<char>) -> bool {
    &&& sign_len(t) < t.len()
    &&& forall|i: int| sign_len(t) <= i < t.len() ==> is_ascii_digit(#[trigger] t[i])
}

pub open spec fn digit_val(c: char) -> int {
    (c as u32) - ('0' as u32)
}

/// The number that a string of decimal digits denotes.
pub open spec fn digits_value(s: Seq<char>) -> int
    decreases s.len(),
{
    if s.len() == 0 {
        0
    } else {
        digits_value(s.drop_last()) * 10 + digit_val(s.last())
    }
}

/// The integer that an integer literal denotes.
pub open spec fn int_token_value(t: Seq<char>) -> int {
    let m = digits_value(t.skip(sign_len(t)));
    if t.len() > 0 && t[0] == '-' {
        -m
    } else {
        m
    }
}

pub open spec fn in_i64(v: int) -> bool {
    i64::MIN <= v <= i64::MAX
}

/// `<i64 as FromStr>::from_str`: an integer literal whose value fits in `i64`.
pub open spec fn parse_i64_spec(t: Seq<char>) -> Option<int> {
    if is_int_token(t) && in_i64(int_token_value(t)) {
        Some(int_token_value(t))
    } else {
        None
    }
}

/// Index of the first non-digit character at or after `i` (or the length).
pub open spec fn digit_end_from(t: Seq<char>, i: int) -> int
    decreases t.len() - i,
{
    if 0 <= i < t.len() && is_ascii_digit(t[i]) {
        digit_end_from(t, i + 1)
    } else {
        i
    }
}

/// `[+-]? digits [. digits] [(e|E) [+-]? digits]` with at least one digit in the mantissa, a
/// non-empty exponent when there is one, and a dot with digits after it or an exponent.
pub open spec fn is_hocon_float(t: Seq<char>) -> bool {
    let n = t.len() as int;
    let i0 = sign_len(t);
    let i1 = digit_end_from(t, i0);
    let int_d = i1 - i0;
    let has_dot = i1 < n && t[i1] == '.';
    let i2 = if has_dot {
        digit_end_from(t, i1 + 1)
    } else {
        i1
    };
    let frac_d = if has_dot {
        i2 - (i1 + 1)
    } else {
        0
    };
    let has_exp = i2 < n && (t[i2] == 'e' || t[i2] == 'E');
    let i3 = if has_exp {
        if i2 + 1 < n && is_sign(t[i2 + 1]) {
            i2 + 2
        } else {
            i2 + 1
        }
    } else {
        i2
    };
    let i4 = if has_exp {
        digit_end_from(t, i3)
    } else {
        i3
    };
    &&& !has_exp || i4 > i3
    &&& i4 == n
    &&& int_d + frac_d >= 1
    &&& (has_dot && frac_d >= 1) || has_exp
}

/// Decimal digits only.
pub open spec fn all_digits(s: Seq<char>) -> bool {
    forall|k: int| 0 <= k < s.len() ==> is_ascii_digit(#[trigger] s[k])
}

/// An exponent: `e` or `E`, an optional sign, and at least one digit.
pub open spec fn is_exponent(s: Seq<char>) -> bool {
    &&& s.len() >= 2
    &&& (s[0] == 'e' || s[0] == 'E')
    &&& (all_digits(s.skip(1)) || (is_sign(s[1]) && s.len() >= 3 && all_digits(s.skip(2))))
}

/// `t` splits as sign, integer digits `[sign_len, d)`, an optional fraction `[d, e)` (a dot and
/// digits), and an optional exponent from `e`; with at least one digit before the exponent, and
/// a fraction with digits or an exponent.
pub open spec fn float_split(t: Seq<char>, d: int, e: int) -> bool {
    let i = sign_len(t);
    &&& i <= d <= e <= t.len()
    &&& all_digits(t.subrange(i, d))
    &&& (e == d || (t[d] == '.' && all_digits(t.subrange(d + 1, e))))
    &&& (e == t.len() || is_exponent(t.skip(e)))
    &&& (d - i) + (if e > d {
        e - d - 1
    } else {
        0
    }) >= 1
    &&& (e - d >= 2 || e < t.len())
}

/// `[+-]?(digits? . digits | (digits .? digits? | . digits) [eE][+-]? digits)`: a float literal.
pub open spec fn is_float_literal(t: Seq<char>) -> bool {
    exists|d: int, e: int| float_split(t, d, e)
}

proof fn lemma_digit_end_from(t: Seq<char>, a: int)
    requires
        0 <= a <= t.len(),
    ensures
        a <= digit_end_from(t, a) <= t.len(),
        all_digits(t.subrange(a, digit_end_from(t, a))),
        digit_end_from(t, a) == t.len() || !is_ascii_digit(t[digit_end_from(t, a)]),
    decreases t.len() - a,
{
    if a < t.len() && is_ascii_digit(t[a]) {
        lemma_digit_end_from(t, a + 1);
        let b = digit_end_from(t, a);
        assert forall|k: int| 0 <= k < b - a implies is_ascii_digit(#[trigger] t.subrange(a, b)[k]) by {
            if k > 0 {
                assert(t.subrange(a, b)[k] == t.subrange(a + 1, b)[k - 1]);
            }
        }
    }
}

proof fn lemma_digit_end_at(t: Seq<char>, a: int, b: int)
    requires
        0 <= a <= b <= t.len(),
        all_digits(t.subrange(a, b)),
        b == t.len() || !is_ascii_digit(t[b]),
    ensures
        digit_end_from(t, a) == b,
    decreases b - a,
{
    if a < b {
        assert(is_ascii_digit(t.subrange(a, b)[0]));
        assert forall|k: int| 0 <= k < b - a - 1 implies is_ascii_digit(#[trigger] t.subrange(a + 1, b)[k]) by {
            assert(t.subrange(a + 1, b)[k] == t.subrange(a, b)[k + 1]);
        }
        lemma_digit_end_at(t, a + 1, b);
    }
}

/// The scan that [`is_hocon_float`] makes accepts exactly the float literals.
pub proof fn lemma_hocon_float_pattern(t: Seq<char>)
    ensures
        is_hocon_float(t) == is_float_literal(t),
{
    let n = t.len() as int;
    let i0 = sign_len(t);
    lemma_digit_end_from(t, i0);
    let i1 = digit_end_from(t, i0);
    let has_dot = i1 < n && t[i1] == '.';
    if has_dot {
        lemma_digit_end_from(t, i1 + 1);
    }
    let i2 = if has_dot {
        digit_end_from(t, i1 + 1)
    } else {
        i1
    };
    let has_exp = i2 < n && (t[i2] == 'e' || t[i2] == 'E');
    let i3 = if has_exp {
        if i2 + 1 < n && is_sign(t[i2 + 1]) {
            i2 + 2
        } else {
            i2 + 1
        }
    } else {
        i2
    };
    if has_exp {
        lemma_digit_end_from(t, i3);
    }
    if is_hocon_float(t) {
        if has_exp {
            let s = t.skip(i2);
            if i2 + 1 < n && is_sign(t[i2 + 1]) {
                assert(s.skip(2) =~= t.subrange(i3, n));
            } else {
                assert(s.skip(1) =~= t.subrange(i3, n));
            }
        }
        assert(float_split(t, i1, i2));
    }
    if is_float_literal(t) {
        let (d, e) = choose|d: int, e: int| float_split(t, d, e);
        if d < n {
            if e > d {
                assert(t[d] == '.');
            } else {
                assert(t.skip(e)[0] == t[d]);
            }
        }
        lemma_digit_end_at(t, i0, d);
        if e > d {
            if e < n {
                assert(t.skip(e)[0] == t[e]);
            }
            lemma_digit_end_at(t, d + 1, e);
        }
        assert(i2 == e);
        if e < n {
            let s = t.skip(e);
            assert(s[0] == t[e]);
            if is_sign(s[1]) {
                assert(!all_digits(s.skip(1))) by {
                    assert(s.skip(1)[0] == s[1]);
                }
                assert(s.skip(2) =~= t.subrange(e + 2, n));
                assert(s[1] == t[e + 1]);
                lemma_digit_end_at(t, e + 2, n);
            } else {
                assert(s.skip(1) =~= t.subrange(e + 1, n));
                assert(s[1] == t[e + 1]);
                lemma_digit_end_at(t, e + 1, n);
            }
        }
    }
}

/// A quoted key that reads like a bare identifier: ASCII letters, digits, `_` and `-`.
pub open spec fn is_safe_key(k: Seq<char>) -> bool {
    &&& k.len() > 0
    &&& forall|i: int|
        0 <= i < k.len() ==> is_ascii_alnum(#[trigger] k[i]) || k[i] == '_' || k[i] == '-'
}

/// The type that an unquoted token receives.
pub open spec fn classify_spec(t: Seq<char>) -> SVal {
    if eq_ignore_ascii_case(t, seq_true()) {
        SVal::Bool(true)
    } else if eq_ignore_ascii_case(t, seq_false()) {
        SVal::Bool(false)
    } else if eq_ignore_ascii_case(t, seq_null()) {
        SVal::Null
    } else if parse_i64_spec(t) is Some {
        SVal::Int(parse_i64_spec(t)->0)
    } else if is_int_token(t) {
        SVal::BigInt(t)
    } else if is_hocon_float(t) {
        SVal::Float(t)
    } else {
        SVal::Str(t)
    }
}

pub fn is_keyword_range(s: &Vec<char>, lo: usize, hi: usize) -> (b: bool)
    requires
        lo <= hi <= s.len(),
    ensures
        b == is_bare_kw(s@.subrange(lo as int, hi as int)),
{
    let t = vec!['t', 'r', 'u', 'e'];
    let f = vec!['f', 'a', 'l', 's', 'e'];
    let n = vec!['n', 'u', 'l', 'l'];
    assert(t@ == seq_true());
    assert(f@ == seq_false());
    assert(n@ == seq_null());
    range_eq_ignore_ascii_case(s, lo, hi, &t) || range_eq_ignore_ascii_case(s, lo, hi, &f)
        || range_eq_ignore_ascii_case(s, lo, hi, &n)
}

pub fn is_ascii_digit_char(c: char) -> (b: bool)
    ensures
        b == is_ascii_digit(c),
{
    '0' <= c && c <= '9'
}

pub fn is_int_token_exec(t: &Vec<char>) -> (b: bool)
    ensures
        b == is_int_token(t@),
{
    let mut i: usize = 0;
    if i < t.len() && (t[i] == '+' || t[i] == '-') {
        i += 1;
    }
    assert(i == sign_len(t@));
    if i >= t.len() {
        return false;
    }
    while i < t.len()
        invariant
            sign_len(t@) <= i <= t.len(),
            forall|j: int| sign_len(t@) <= j < i ==> is_ascii_digit(#[trigger] t@[j]),
        decreases t.len() - i,
    {
        if !is_ascii_digit_char(t[i]) {
            return false;
        }
        i += 1;
    }
    true
}

proof fn lemma_digits_value_push(s: Seq<char>, c: char)
    ensures
        digits_value(s.push(c)) == digits_value(s) * 10 + digit_val(c),
{
    assert(s.push(c).drop_last() =~= s);
}

proof fn lemma_digits_value_nonneg(s: Seq<char>)
    requires
        forall|i: int| 0 <= i < s.len() ==> is_ascii_digit(#[trigger] s[i]),
    ensures
        digits_value(s) >= 0,
    decreases s.len(),
{
    if s.len() > 0 {
        lemma_digits_value_nonneg(s.drop_last());
        assert(is_ascii_digit(s[s.len() - 1]));
    }
}

/// `<i64 as FromStr>::from_str` on a character vector.
pub fn parse_i64(t: &Vec<char>) -> (r: Option<i64>)
    ensures
        r matches Some(v) ==> parse_i64_spec(t@) == Some(v as int),
        r is None ==> parse_i64_spec(t@) is None,
{
    if !is_int_token_exec(t) {
        return None;
    }
    let neg = t[0] == '-';
    let mut i: usize = if t[0] == '+' || t[0] == '-' {
        1
    } else {
        0
    };
    let start = i;
    assert(start == sign_len(t@));
    let limit: u128 = 9223372036854775808;
    let mut m: u128 = 0;
    let mut big = false;
    assert(t@.subrange(start as int, start as int) =~= Seq::<char>::empty());
    while i < t.len()
        invariant
            start == sign_len(t@),
            is_int_token(t@),
            start <= i <= t.len(),
            limit == 9223372036854775808,
            !big ==> m == digits_value(t@.subrange(start as int, i as int)),
            !big ==> m <= limit,
            big ==> digits_value(t@.subrange(start as int, i as int)) > limit,
        decreases t.len() - i,
    {
        let ghost prev = t@.subrange(start as int, i as int);
        assert(t@.subrange(start as int, i + 1) =~= prev.push(t@[i as int]));
        proof {
            lemma_digits_value_push(prev, t@[i as int]);
            assert(is_ascii_digit(t@[i as int]));
        }
        let d = (t[i] as u32 - '0' as u32) as u128;
        if !big {
            let next = m * 10 + d;
            if next > limit {
                big = true;
            } else {
                m = next;
            }
        }
        i += 1;
    }
    assert(t@.subrange(start as int, t@.len() as int) =~= t@.skip(start as int));
    if big {
        return None;
    }
    if neg {
        let v: i128 = 0 - (m as i128);
        if v < -9223372036854775808 {
            return None;
        }
        Some(v as i64)
    } else {
        if m > 9223372036854775807 {
            return None;
        }
        Some(m as i64)
    }
}

pub fn digit_end(t: &Vec<char>, i: usize) -> (r: usize)
    requires
        i <= t.len(),
    ensures
        r == digit_end_from(t@, i as int),
        i <= r <= t.len(),
{
    let mut k = i;
    while k < t.len() && is_ascii_digit_char(t[k])
        invariant
            i <= k <= t.len(),
            digit_end_from(t@, k as int) == digit_end_from(t@, i as int),
        decreases t.len() - k,
    {
        k += 1;
    }
    k
}

pub fn is_hocon_float_exec(t: &Vec<char>) -> (b: bool)
    ensures
        b == is_hocon_float(t@),
        b == is_float_literal(t@),
{
    proof {
        lemma_hocon_float_pattern(t@);
    }
    let n = t.len();
    let mut i: usize = 0;
    if i < n && (t[i] == '+' || t[i] == '-') {
        i += 1;
    }
    let i0 = i;
    let i1 = digit_end(t, i0);
    let int_d = i1 - i0;
    let has_dot = i1 < n && t[i1] == '.';
    let i2 = if has_dot {
        digit_end(t, i1 + 1)
    } else {
        i1
    };
    let frac_d = if has_dot {
        i2 - (i1 + 1)
    } else {
        0
    };
    let has_exp = i2 < n && (t[i2] == 'e' || t[i2] == 'E');
    let i3 = if has_exp {
        if i2 + 1 < n && (t[i2 + 1] == '+' || t[i2 + 1] == '-') {
            i2 + 2
        } else {
            i2 + 1
        }
    } else {
        i2
    };
    let i4 = if has_exp {
        digit_end(t, i3)
    } else {
        i3
    };
    (!has_exp || i4 > i3) && i4 == n && int_d + frac_d >= 1 && ((has_dot && frac_d >= 1) || has_exp)
}

pub fn is_safe_key_exec(k: &Vec<char>) -> (b: bool)
    ensures
        b == is_safe_key(k@),
{
    if k.len() == 0 {
        return false;
    }
    let mut i: usize = 0;
    while i < k.len()
        invariant
            i <= k.len(),
            forall|j: int|
                0 <= j < i ==> is_ascii_alnum(#[trigger] k@[j]) || k@[j] == '_' || k@[j] == '-',
        decreases k.len() - i,
    {
        let c = k[i];
        if !(('0' <= c && c <= '9') || ('a' <= c && c <= 'z') || ('A' <= c && c <= 'Z') || c == '_'
            || c == '-') {
            return false;
        }
        i += 1;
    }
    true
}

/// The value of an unquoted token, typed as HOCON types it.
pub fn classify(t: &Vec<char>) -> (v: Value)
    ensures
        v@ == classify_spec(t@),
        is_float_literal(t@) && !is_int_token(t@) ==> v@ == SVal::Float(t@),
{
    proof {
        if is_float_literal(t@) && !is_int_token(t@) {
            crate::laws::law_float_literal_typed(t@);
        }
    }
    let n = t.len();
    let tt = vec!['t', 'r', 'u', 'e'];
    let ff = vec!['f', 'a', 'l', 's', 'e'];
    let nn = vec!['n', 'u', 'l', 'l'];
    assert(tt@ == seq_true());
    assert(ff@ == seq_false());
    assert(nn@ == seq_null());
    assert(t@.subrange(0, n as int) =~= t@);
    if range_eq_ignore_ascii_case(t, 0, n, &tt) {
        return Value::Bool(true);
    }
    if range_eq_ignore_ascii_case(t, 0, n, &ff) {
        return Value::Bool(false);
    }
    if range_eq_ignore_ascii_case(t, 0, n, &nn) {
        return Value::Null;
    }
    match parse_i64(t) {
        Some(i) => {
            return Value::Int(i);
        },
        None => {},
    }
    if is_int_token_exec(t) {
        return Value::BigInt(string_of(t));
    }
    if is_hocon_float_exec(t) {
        return Value::Float(string_of(t));
    }
    Value::Str(string_of(t))
}

} // verus!
