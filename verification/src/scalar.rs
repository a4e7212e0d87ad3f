//! Recognisers for the textual forms of the scalar types that a schema can ask for.
//!
//! Each recogniser decides a grammar on characters; no number is ever built.

use vstd::prelude::*;
use vstd::slice::slice_subrange;

verus! {

/// Whether `c` is one of the ten decimal digits.
pub open spec fn is_digit(c: char) -> bool {
    '0' <= c && c <= '9'
}

/// The number that the digit `c` stands for.
pub open spec fn digit_value(c: char) -> int {
    c as u32 - '0' as u32
}

/// Whether `s` holds decimal digits only.
pub open spec fn all_digits(s: Seq<char>) -> bool {
    forall|i: int| 0 <= i < s.len() ==> is_digit(#[trigger] s[i])
}

/// The number that the decimal digits `s` spell.
pub open spec fn decimal_value(s: Seq<char>) -> int
    decreases s.len(),
{
    if s.len() == 0 {
        0
    } else {
        decimal_value(s.drop_last()) * 10 + digit_value(s.last())
    }
}

/// Whether `s` starts with a sign.
pub open spec fn has_sign(s: Seq<char>) -> bool {
    s.len() > 0 && (s[0] == '+' || s[0] == '-')
}

/// `s` without its leading sign, if it has one.
pub open spec fn unsigned_part(s: Seq<char>) -> Seq<char> {
    if has_sign(s) {
        s.skip(1)
    } else {
        s
    }
}

/// Whether `s` spells a signed 64-bit integer: an optional sign, then one or more decimal
/// digits, the number within the range of `i64`.
pub open spec fn is_int_text(s: Seq<char>) -> bool {
    let digits = unsigned_part(s);
    &&& digits.len() > 0
    &&& all_digits(digits)
    &&& if s[0] == '-' {
        -decimal_value(digits) >= i64::MIN
    } else {
        decimal_value(digits) <= i64::MAX
    }
}

/// How many decimal digits `s` starts with.
pub open spec fn digit_run(s: Seq<char>) -> nat
    decreases s.len(),
{
    if s.len() > 0 && is_digit(s[0]) {
        1 + digit_run(s.skip(1))
    } else {
        0
    }
}

/// Whether `s` is an exponent: `e` or `E`, an optional sign, then one or more digits.
pub open spec fn is_exponent(s: Seq<char>) -> bool {
    &&& s.len() > 0
    &&& (s[0] == 'e' || s[0] == 'E')
    &&& unsigned_part(s.skip(1)).len() > 0
    &&& all_digits(unsigned_part(s.skip(1)))
}

/// Whether `s` is a decimal number: digits, optionally a point and more digits, with at
/// least one digit before or after the point, and optionally an exponent.
pub open spec fn is_decimal_number(s: Seq<char>) -> bool {
    let whole = digit_run(s);
    let after_whole = s.skip(whole as int);
    let has_point = after_whole.len() > 0 && after_whole[0] == '.';
    let after_point = if has_point {
        after_whole.skip(1)
    } else {
        after_whole
    };
    let fraction = if has_point {
        digit_run(after_point)
    } else {
        0
    };
    let rest = after_point.skip(fraction as int);
    whole + fraction > 0 && (rest.len() == 0 || is_exponent(rest))
}

/// Whether `c` is the letter given in its two cases.
pub open spec fn is_letter(c: char, lower: char, upper: char) -> bool {
    c == lower || c == upper
}

/// Whether `s` is `inf`, `infinity` or `nan`, in any mix of cases.
pub open spec fn is_special_float(s: Seq<char>) -> bool {
    ||| {
        &&& s.len() == 3
        &&& is_letter(s[0], 'i', 'I')
        &&& is_letter(s[1], 'n', 'N')
        &&& is_letter(s[2], 'f', 'F')
    }
    ||| {
        &&& s.len() == 3
        &&& is_letter(s[0], 'n', 'N')
        &&& is_letter(s[1], 'a', 'A')
        &&& is_letter(s[2], 'n', 'N')
    }
    ||| {
        &&& s.len() == 8
        &&& is_letter(s[0], 'i', 'I')
        &&& is_letter(s[1], 'n', 'N')
        &&& is_letter(s[2], 'f', 'F')
        &&& is_letter(s[3], 'i', 'I')
        &&& is_letter(s[4], 'n', 'N')
        &&& is_letter(s[5], 'i', 'I')
        &&& is_letter(s[6], 't', 'T')
        &&& is_letter(s[7], 'y', 'Y')
    }
}

/// Whether `s` spells a 64-bit floating-point number: an optional sign, then a decimal
/// number or one of the words `inf`, `infinity` and `nan`.
pub open spec fn is_float_text(s: Seq<char>) -> bool {
    is_decimal_number(unsigned_part(s)) || is_special_float(unsigned_part(s))
}

/// Whether `s` is one of the two words `true` and `false`.
pub open spec fn is_bool_text(s: Seq<char>) -> bool {
    s == "true"@ || s == "false"@
}

/// The number that digits spell is not negative.
pub proof fn lemma_decimal_value_nonnegative(s: Seq<char>)
    requires
        all_digits(s),
    ensures
        decimal_value(s) >= 0,
    decreases s.len(),
{
    if s.len() > 0 {
        lemma_decimal_value_nonnegative(s.drop_last());
    }
}

/// The number that the first `k` digits spell is at most the number that all of them spell.
pub proof fn lemma_decimal_value_of_prefix(s: Seq<char>, k: int)
    requires
        all_digits(s),
        0 <= k <= s.len(),
    ensures
        decimal_value(s.take(k)) <= decimal_value(s),
    decreases s.len(),
{
    if k == s.len() {
        assert(s.take(k) == s);
    } else {
        assert(s.drop_last().take(k) == s.take(k));
        lemma_decimal_value_of_prefix(s.drop_last(), k);
        lemma_decimal_value_nonnegative(s.drop_last());
    }
}

/// Tells whether `c` is a decimal digit.
pub fn digit(c: char) -> (b: bool)
    ensures
        b == is_digit(c),
{
    '0' <= c && c <= '9'
}

/// Tells whether `s` holds decimal digits only.
pub fn only_digits(s: &[char]) -> (b: bool)
    ensures
        b == all_digits(s@),
{
    let mut i: usize = 0;
    while i < s.len()
        invariant
            i <= s.len(),
            forall|j: int| 0 <= j < i ==> is_digit(#[trigger] s@[j]),
        decreases s.len() - i,
    {
        if !digit(s[i]) {
            return false;
        }
        i += 1;
    }
    true
}

/// Drops the leading sign of `s`, if it has one.
pub fn skip_sign(s: &[char]) -> (out: &[char])
    ensures
        out@ == unsigned_part(s@),
{
    if s.len() > 0 && (s[0] == '+' || s[0] == '-') {
        slice_subrange(s, 1, s.len())
    } else {
        s
    }
}

/// Counts the decimal digits that `s` starts with.
pub fn count_digits(s: &[char]) -> (n: usize)
    ensures
        n == digit_run(s@),
        n <= s.len(),
{
    let mut n: usize = 0;
    assert(s@.skip(0) == s@);
    while n < s.len() && digit(s[n])
        invariant
            n <= s.len(),
            digit_run(s@) == n + digit_run(s@.skip(n as int)),
        decreases s.len() - n,
    {
        assert(s@.skip(n as int).skip(1) == s@.skip(n + 1));
        n += 1;
    }
    n
}

/// Tells whether `s` spells a signed 64-bit integer.
pub fn is_int(s: &[char]) -> (b: bool)
    ensures
        b == is_int_text(s@),
{
    let digits = skip_sign(s);
    if digits.len() == 0 {
        return false;
    }
    let negative = s[0] == '-';
    let limit: u128 = if negative {
        0x8000_0000_0000_0000
    } else {
        0x7fff_ffff_ffff_ffff
    };
    let mut value: u128 = 0;
    let mut i: usize = 0;
    while i < digits.len()
        invariant
            i <= digits.len(),
            digits@ == unsigned_part(s@),
            digits@.len() > 0,
            limit == if s@[0] == '-' {
                -(i64::MIN as int)
            } else {
                i64::MAX as int
            },
            value <= limit,
            value == decimal_value(digits@.take(i as int)),
            all_digits(digits@.take(i as int)),
        decreases digits.len() - i,
    {
        let c = digits[i];
        let ghost next = digits@.take(i + 1);
        assert(next.drop_last() == digits@.take(i as int));
        if !digit(c) {
            return false;
        }
        value = value * 10 + (c as u32 - '0' as u32) as u128;
        if value > limit {
            proof {
                if all_digits(digits@) {
                    lemma_decimal_value_of_prefix(digits@, i + 1);
                }
            }
            return false;
        }
        i += 1;
    }
    assert(digits@.take(i as int) == digits@);
    true
}

/// Tells whether `s` is an exponent.
pub fn is_exponent_part(s: &[char]) -> (b: bool)
    ensures
        b == is_exponent(s@),
{
    if s.len() == 0 || !(s[0] == 'e' || s[0] == 'E') {
        return false;
    }
    let digits = skip_sign(slice_subrange(s, 1, s.len()));
    digits.len() > 0 && only_digits(digits)
}

/// Tells whether `c` is the letter given in its two cases.
pub fn letter(c: char, lower: char, upper: char) -> (b: bool)
    ensures
        b == is_letter(c, lower, upper),
{
    c == lower || c == upper
}

/// Tells whether `s` is `inf`, `infinity` or `nan`, in any mix of cases.
pub fn is_special(s: &[char]) -> (b: bool)
    ensures
        b == is_special_float(s@),
{
    if s.len() == 3 {
        (letter(s[0], 'i', 'I') && letter(s[1], 'n', 'N') && letter(s[2], 'f', 'F')) || (letter(
            s[0],
            'n',
            'N',
        ) && letter(s[1], 'a', 'A') && letter(s[2], 'n', 'N'))
    } else if s.len() == 8 {
        letter(s[0], 'i', 'I') && letter(s[1], 'n', 'N') && letter(s[2], 'f', 'F') && letter(
            s[3],
            'i',
            'I',
        ) && letter(s[4], 'n', 'N') && letter(s[5], 'i', 'I') && letter(s[6], 't', 'T')
            && letter(s[7], 'y', 'Y')
    } else {
        false
    }
}

/// Tells whether `s` is a decimal number.
pub fn is_decimal(s: &[char]) -> (b: bool)
    ensures
        b == is_decimal_number(s@),
{
    let whole = count_digits(s);
    let after_whole = slice_subrange(s, whole, s.len());
    let has_point = after_whole.len() > 0 && after_whole[0] == '.';
    let after_point = if has_point {
        slice_subrange(after_whole, 1, after_whole.len())
    } else {
        after_whole
    };
    let fraction = if has_point {
        count_digits(after_point)
    } else {
        0
    };
    let rest = slice_subrange(after_point, fraction, after_point.len());
    (whole > 0 || fraction > 0) && (rest.len() == 0 || is_exponent_part(rest))
}

/// Tells whether `s` spells a 64-bit floating-point number.
pub fn is_float(s: &[char]) -> (b: bool)
    ensures
        b == is_float_text(s@),
{
    let body = skip_sign(s);
    is_decimal(body) || is_special(body)
}

/// Tells whether `s` holds the characters of `word`.
pub fn equals_str(s: &[char], word: &str) -> (b: bool)
    ensures
        b == (s@ == word@),
{
    let mut i: usize = 0;
    for c in it: word.chars()
        invariant
            it.seq() == word@,
            i == it.index(),
            i <= s.len(),
            s@.take(i as int) == word@.take(i as int),
    {
        if i >= s.len() || s[i] != c {
            return false;
        }
        i += 1;
    }
    assert(word@.take(i as int) == word@);
    if i == s.len() {
        assert(s@.take(i as int) == s@);
        true
    } else {
        false
    }
}

/// Tells whether `s` is one of the two words `true` and `false`.
pub fn is_bool(s: &[char]) -> (b: bool)
    ensures
        b == is_bool_text(s@),
{
    equals_str(s, "true") || equals_str(s, "false")
}

} // verus!
