//! Numeric literal syntax: which tokens denote integers, and which denote
//! floating point numbers.
//!
//! A token that begins with a digit or a minus sign must be numeric; these
//! functions decide validity and, for integers, compute the value.  Float
//! tokens are validated against the grammar `f32::from_str` accepts for
//! ordinary numbers (sign, digits with an optional point, and an optional
//! exponent); their text is kept verbatim.
use crate::chars::is_digit;
use crate::chars::is_digit_char;
use vstd::prelude::*;

verus! {

/// The numeric value of a decimal digit character.
pub open spec fn digit_val(c: char) -> int {
    c as u32 - 0x30
}

/// True when every character of `s` is a decimal digit.
pub open spec fn all_digits(s: Seq<char>) -> bool {
    forall|i: int| 0 <= i < s.len() ==> is_digit(#[trigger] s[i])
}

/// The value of a run of decimal digits.
pub open spec fn digits_value(s: Seq<char>) -> int
    decreases s.len(),
{
    if s.len() <= 0 {
        0
    } else {
        digits_value(s.drop_last()) * 10 + digit_val(s.last())
    }
}

/// True when `s` is an integer literal `i32::from_str` accepts, given that it
/// begins with a digit or a minus sign: an optional minus sign, then at least
/// one digit, with the value in `i32`'s range.
pub open spec fn is_int_literal(s: Seq<char>) -> bool {
    if s.len() > 0 && s[0] == '-' {
        s.len() > 1 && all_digits(s.skip(1)) && -digits_value(s.skip(1)) >= i32::MIN as int
    } else {
        s.len() > 0 && all_digits(s) && digits_value(s) <= i32::MAX as int
    }
}

/// The value denoted by an integer literal.
pub open spec fn int_literal_value(s: Seq<char>) -> int {
    if s.len() > 0 && s[0] == '-' {
        -digits_value(s.skip(1))
    } else {
        digits_value(s)
    }
}

/// The end of the run of decimal digits of `s` that starts at `i`.
pub open spec fn digit_run_end(s: Seq<char>, i: int) -> int
    decreases s.len() - i,
{
    if 0 <= i && i < s.len() && is_digit(s[i]) {
        digit_run_end(s, i + 1)
    } else {
        i
    }
}

/// True when an exponent part (`e` or `E`, an optional sign, then at least
/// one digit) starts at `p` and reaches the end of `s`.
pub open spec fn is_exponent(s: Seq<char>, p: int) -> bool {
    p < s.len() && (s[p] == 'e' || s[p] == 'E') && {
        let e0: int = if p + 1 < s.len() && (s[p + 1] == '-' || s[p + 1] == '+') {
            p + 2
        } else {
            p + 1
        };
        let e1 = digit_run_end(s, e0);
        e1 > e0 && e1 == s.len()
    }
}

/// True when `s` is a floating point literal `f32::from_str` accepts, given
/// that it begins with a digit or a minus sign: an optional sign, at least
/// one digit on some side of an optional point, and an optional exponent.
pub open spec fn is_float_literal(s: Seq<char>) -> bool {
    let i0: int = if s.len() > 0 && (s[0] == '-' || s[0] == '+') {
        1
    } else {
        0
    };
    let d1 = digit_run_end(s, i0);
    let has_dot = d1 < s.len() && s[d1] == '.';
    let frac_end: int = if has_dot {
        digit_run_end(s, d1 + 1)
    } else {
        d1
    };
    let has_digits: bool = if has_dot {
        d1 > i0 || frac_end > d1 + 1
    } else {
        d1 > i0
    };
    has_digits && (frac_end == s.len() || is_exponent(s, frac_end))
}

/// A digit run stays within the bounds it started from.
pub proof fn lemma_digit_run_bounds(s: Seq<char>, i: int)
    requires
        0 <= i <= s.len(),
    ensures
        i <= digit_run_end(s, i) <= s.len(),
    decreases s.len() - i,
{
    if i < s.len() && is_digit(s[i]) {
        lemma_digit_run_bounds(s, i + 1);
    }
}

/// The value of a digit run is non-negative.
pub proof fn lemma_digits_value_nonneg(s: Seq<char>)
    requires
        all_digits(s),
    ensures
        digits_value(s) >= 0,
    decreases s.len(),
{
    if s.len() > 0 {
        assert(all_digits(s.drop_last())) by {
            assert(forall|i: int|
                0 <= i < s.len() - 1 ==> s.drop_last()[i] == #[trigger] s[i]);
        }
        lemma_digits_value_nonneg(s.drop_last());
    }
}

/// Extending a digit run by one digit multiplies its value by ten and adds
/// the digit.
pub proof fn lemma_digits_value_step(s: Seq<char>, i: int)
    requires
        0 <= i < s.len(),
    ensures
        digits_value(s.take(i + 1)) == digits_value(s.take(i)) * 10 + digit_val(s[i]),
{
    assert(s.take(i + 1).drop_last() =~= s.take(i));
    assert(s.take(i + 1).last() == s[i]);
}

/// The value of a whole digit run is at least the value of any of its
/// prefixes.
pub proof fn lemma_digits_value_prefix(s: Seq<char>, k: int)
    requires
        all_digits(s),
        0 <= k <= s.len(),
    ensures
        digits_value(s) >= digits_value(s.take(k)),
    decreases s.len() - k,
{
    if k < s.len() {
        lemma_digits_value_step(s, k);
        assert(all_digits(s.take(k))) by {
            assert(forall|i: int| 0 <= i < k ==> s.take(k)[i] == #[trigger] s[i]);
        }
        lemma_digits_value_nonneg(s.take(k));
        lemma_digits_value_prefix(s, k + 1);
    } else {
        assert(s.take(k) =~= s);
    }
}

/// Computes the end of the digit run of `s` starting at `i`.
pub fn digit_run_end_from(s: &str, len: usize, i: usize) -> (j: usize)
    requires
        len == s@.len(),
        i <= len,
    ensures
        j == digit_run_end(s@, i as int),
        i <= j <= len,
{
    let mut j: usize = i;
    while j < len && is_digit_char(s.get_char(j))
        invariant
            i <= j <= len,
            len == s@.len(),
            digit_run_end(s@, i as int) == digit_run_end(s@, j as int),
        decreases len - j,
    {
        j = j + 1;
    }
    j
}

/// True when the token holds a decimal point.
pub fn has_dot(s: &str) -> (r: bool)
    ensures
        r == s@.contains('.'),
{
    let len = s.unicode_len();
    let mut i: usize = 0;
    while i < len
        invariant
            i <= len,
            len == s@.len(),
            forall|j: int| 0 <= j < i ==> s@[j] != '.',
        decreases len - i,
    {
        if s.get_char(i) == '.' {
            return true;
        }
        i = i + 1;
    }
    false
}

/// Decides whether a token is a floating point literal ([`is_float_literal`]).
pub fn is_float_token(s: &str) -> (r: bool)
    ensures
        r == is_float_literal(s@),
{
    let len = s.unicode_len();
    let i0: usize = if len > 0 && (s.get_char(0) == '-' || s.get_char(0) == '+') {
        1
    } else {
        0
    };
    let d1 = digit_run_end_from(s, len, i0);
    let has_dot = d1 < len && s.get_char(d1) == '.';
    let frac_end: usize = if has_dot {
        digit_run_end_from(s, len, d1 + 1)
    } else {
        d1
    };
    let has_digits: bool = if has_dot {
        d1 > i0 || frac_end > d1 + 1
    } else {
        d1 > i0
    };
    if !has_digits {
        return false;
    }
    if frac_end == len {
        return true;
    }
    let e = s.get_char(frac_end);
    if !(e == 'e' || e == 'E') {
        return false;
    }
    let e0: usize = if frac_end + 1 < len && (s.get_char(frac_end + 1) == '-' || s.get_char(
        frac_end + 1,
    ) == '+') {
        frac_end + 2
    } else {
        frac_end + 1
    };
    if e0 > len {
        return false;
    }
    let e1 = digit_run_end_from(s, len, e0);
    e1 > e0 && e1 == len
}

/// Parses a token as an `i32`, returning `None` exactly when the token is not
/// an integer literal ([`is_int_literal`]).
pub fn parse_i32_token(s: &str) -> (r: Option<i32>)
    ensures
        r is Some <==> is_int_literal(s@),
        r is Some ==> r->0 == int_literal_value(s@),
{
    let len = s.unicode_len();
    let neg = len > 0 && s.get_char(0) == '-';
    let st: usize = if neg {
        1
    } else {
        0
    };
    if st >= len {
        return None;
    }
    let ghost d = s@.skip(st as int);
    assert(d.len() == len - st);
    let mut m: u64 = 0;
    let mut i: usize = st;
    proof {
        assert(d.take(0) =~= Seq::<char>::empty());
    }
    while i < len
        invariant
            st <= i <= len,
            st < len,
            len == s@.len(),
            neg == (s@.len() > 0 && s@[0] == '-'),
            st == if neg {
                1int
            } else {
                0int
            },
            d == s@.skip(st as int),
            all_digits(d.take(i - st)),
            m == digits_value(d.take(i - st)),
            m <= 0x8000_0000,
        decreases len - i,
    {
        let c = s.get_char(i);
        assert(d[i - st] == c);
        if !is_digit_char(c) {
            assert(!all_digits(d));
            return None;
        }
        let dv: u64 = (c as u32) as u64 - 0x30;
        if m > 214748364 || (m == 214748364 && dv > 8) {
            proof {
                lemma_digits_value_step(d, i - st);
                assert(digits_value(d.take(i - st + 1)) > 0x8000_0000);
                if !neg {
                    assert(d =~= s@);
                }
                if all_digits(d) {
                    lemma_digits_value_prefix(d, i - st + 1);
                }
            }
            return None;
        }
        proof {
            lemma_digits_value_step(d, i - st);
            assert(d.take(i - st + 1).drop_last() =~= d.take(i - st));
        }
        m = m * 10 + dv;
        i = i + 1;
    }
    proof {
        assert(d.take(i - st) =~= d);
        if !neg {
            assert(d =~= s@);
        }
    }
    if neg {
        let v: i64 = -(m as i64);
        Some(v as i32)
    } else {
        if m > 2147483647 {
            return None;
        }
        Some(m as i32)
    }
}

} // verus!
