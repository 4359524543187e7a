//! Whole numbers as decimal text.

use vstd::prelude::*;
use vstd::string::StringExecFns;
use crate::text::chars_of;

verus! {

/// Whether a character is one of the ten decimal digits.
pub open spec fn is_digit(c: char) -> bool {
    '0' as int <= c as int <= '9' as int
}

/// The digit that stands for a number below ten.
pub open spec fn digit(n: int) -> char {
    if n == 0 {
        '0'
    } else if n == 1 {
        '1'
    } else if n == 2 {
        '2'
    } else if n == 3 {
        '3'
    } else if n == 4 {
        '4'
    } else if n == 5 {
        '5'
    } else if n == 6 {
        '6'
    } else if n == 7 {
        '7'
    } else if n == 8 {
        '8'
    } else {
        '9'
    }
}

/// The decimal digits of a number, without leading zeros.
pub open spec fn decimal(n: nat) -> Seq<char>
    decreases n,
{
    if n < 10 {
        seq![digit(n as int)]
    } else {
        decimal(n / 10).push(digit((n % 10) as int))
    }
}

/// A number in decimal, with a minus sign where it is negative.
pub open spec fn signed_decimal(n: int) -> Seq<char> {
    if n < 0 {
        seq!['-'] + decimal((-n) as nat)
    } else {
        decimal(n as nat)
    }
}

/// A number in decimal, filled up with zeros on the left to a least width.
pub open spec fn padded(n: nat, width: nat) -> Seq<char> {
    let digits = decimal(n);
    if digits.len() < width {
        Seq::new((width - digits.len()) as nat, |i: int| '0') + digits
    } else {
        digits
    }
}

/// The number that a row of digits stands for.
pub open spec fn digits_value(s: Seq<char>) -> int
    decreases s.len(),
{
    if s.len() == 0 {
        0
    } else {
        digits_value(s.drop_last()) * 10 + (s.last() as int - '0' as int)
    }
}

/// Whether a text is made of digits alone, and has at least one.
pub open spec fn is_numeral(s: Seq<char>) -> bool {
    s.len() > 0 && forall|i: int| 0 <= i < s.len() ==> is_digit(#[trigger] s[i])
}

/// What follows an optional sign.
pub open spec fn unsigned_part(s: Seq<char>) -> Seq<char> {
    if s.len() > 0 && (s[0] == '-' || s[0] == '+') {
        s.drop_first()
    } else {
        s
    }
}

/// The 64-bit number that a text stands for: an optional sign and then digits,
/// within the range of the type.
pub open spec fn i64_value(s: Seq<char>) -> Option<i64> {
    let digits = unsigned_part(s);
    let value = if s.len() > 0 && s[0] == '-' {
        -digits_value(digits)
    } else {
        digits_value(digits)
    };
    if is_numeral(digits) && i64::MIN <= value <= i64::MAX {
        Some(value as i64)
    } else {
        None
    }
}

/// Writes a digit.
fn digit_char(n: u64) -> (result: char)
    requires
        n < 10,
    ensures
        result == digit(n as int),
{
    match n {
        0 => '0',
        1 => '1',
        2 => '2',
        3 => '3',
        4 => '4',
        5 => '5',
        6 => '6',
        7 => '7',
        8 => '8',
        _ => '9',
    }
}

/// Writes a number in decimal.
pub fn decimal_text(n: u64) -> (result: String)
    ensures
        result@ == decimal(n as nat),
    decreases n,
{
    if n < 10 {
        let mut out = String::new();
        out.push(digit_char(n));
        assert(out@ == seq![digit(n as int)]);
        out
    } else {
        let mut out = decimal_text(n / 10);
        out.push(digit_char(n % 10));
        out
    }
}

/// Writes a number in decimal, with a minus sign where it is negative.
pub fn signed_text(n: i64) -> (result: String)
    ensures
        result@ == signed_decimal(n as int),
{
    if n < 0 {
        let magnitude: u64 = (-(n + 1)) as u64 + 1;
        let mut out = String::new();
        out.push('-');
        let digits = decimal_text(magnitude);
        out.append(digits.as_str());
        assert(out@ == seq!['-'] + decimal((-n) as nat));
        out
    } else {
        decimal_text(n as u64)
    }
}

/// Writes a number in decimal, filled up with zeros on the left to a least width.
pub fn padded_text(n: u64, width: usize) -> (result: String)
    ensures
        result@ == padded(n as nat, width as nat),
{
    let digits = decimal_text(n);
    let chars = chars_of(digits.as_str());
    if chars.len() >= width {
        return digits;
    }
    let zeros: usize = width - chars.len();
    let mut out = String::new();
    for i in 0..zeros
        invariant
            out@ == Seq::new(i as nat, |j: int| '0'),
    {
        out.push('0');
        assert(out@ == Seq::new((i + 1) as nat, |j: int| '0'));
    }
    out.append(digits.as_str());
    out
}

proof fn lemma_digits_value_bounds(s: Seq<char>, n: int)
    requires
        forall|i: int| 0 <= i < s.len() ==> is_digit(#[trigger] s[i]),
        0 <= n <= s.len(),
    ensures
        0 <= digits_value(s.take(n)) <= digits_value(s),
    decreases s.len(),
{
    if n == s.len() {
        assert(s.take(n) == s);
        if n > 0 {
            let t = s.drop_last();
            assert forall|i: int| 0 <= i < t.len() implies is_digit(#[trigger] t[i]) by {
                assert(t[i] == s[i]);
            }
            lemma_digits_value_bounds(t, t.len() as int);
            assert(t.take(t.len() as int) == t);
            assert(is_digit(s[s.len() - 1]));
        }
    } else {
        let t = s.drop_last();
        assert forall|i: int| 0 <= i < t.len() implies is_digit(#[trigger] t[i]) by {
            assert(t[i] == s[i]);
        }
        lemma_digits_value_bounds(t, n);
        assert(t.take(n) == s.take(n));
        assert(is_digit(s[s.len() - 1]));
    }
}

/// Reads a 64-bit number: an optional sign followed by digits.
pub fn parse_i64(value: &str) -> (result: Option<i64>)
    ensures
        result == i64_value(value@),
{
    let chars = chars_of(value);
    let ghost s = value@;
    let negative: bool = chars.len() > 0 && chars[0] == '-';
    let signed: bool = chars.len() > 0 && (chars[0] == '-' || chars[0] == '+');
    let start: usize = if signed { 1 } else { 0 };
    let ghost digits = unsigned_part(s);
    assert(digits == s.skip(start as int));
    if chars.len() == start {
        return None;
    }
    let mut total: u128 = 0;
    let mut i: usize = start;
    assert(digits.take(0) == Seq::<char>::empty());
    while i < chars.len()
        invariant
            chars@ == s,
            start <= i <= chars.len(),
            digits == s.skip(start as int),
            digits == unsigned_part(s),
            s == value@,
            negative == (s.len() > 0 && s[0] == '-'),
            forall|k: int| 0 <= k < i - start ==> is_digit(#[trigger] digits[k]),
            total == digits_value(digits.take(i - start)),
            total <= 9_223_372_036_854_775_808,
        decreases chars.len() - i,
    {
        let c = chars[i];
        assert(digits[i - start] == c);
        if !('0' <= c && c <= '9') {
            assert(!is_digit(digits[i - start]));
            return None;
        }
        proof {
            assert(digits.take(i - start + 1).drop_last() == digits.take(i - start));
            assert(digits.take(i - start + 1).last() == c);
        }
        total = total * 10 + (c as u32 - '0' as u32) as u128;
        i += 1;
        if total > 9_223_372_036_854_775_808 {
            proof {
                if is_numeral(digits) {
                    lemma_digits_value_bounds(digits, i - start);
                }
            }
            return None;
        }
    }
    assert(digits.take(i - start) == digits);
    assert(is_numeral(digits));
    if negative {
        if total == 9_223_372_036_854_775_808 {
            Some(i64::MIN)
        } else {
            Some(-(total as i64))
        }
    } else if total == 9_223_372_036_854_775_808 {
        None
    } else {
        Some(total as i64)
    }
}

proof fn lemma_decimal_reads_back(n: nat)
    ensures
        is_numeral(decimal(n)),
        digits_value(decimal(n)) == n,
    decreases n,
{
    if n < 10 {
        let s = seq![digit(n as int)];
        assert(s.drop_last() == Seq::<char>::empty());
        assert(digits_value(s.drop_last()) == 0);
        assert(decimal(n) == s);
        assert forall|i: int| 0 <= i < s.len() implies is_digit(#[trigger] s[i]) by {
            assert(s[i] == digit(n as int));
        }
    } else {
        lemma_decimal_reads_back(n / 10);
        let head = decimal(n / 10);
        let s = decimal(n);
        assert(s.drop_last() == head);
        assert forall|i: int| 0 <= i < s.len() implies is_digit(#[trigger] s[i]) by {
            if i < head.len() {
                assert(s[i] == head[i]);
            }
        }
    }
}

/// A 64-bit number written in decimal is read back unchanged.
pub proof fn written_numbers_read_back(n: i64)
    ensures
        i64_value(signed_decimal(n as int)) == Some(n),
{
    let s = signed_decimal(n as int);
    if n < 0 {
        lemma_decimal_reads_back((-n) as nat);
        assert(s.drop_first() == decimal((-n) as nat));
    } else {
        lemma_decimal_reads_back(n as nat);
        assert(is_digit(s[0]));
    }
}

/// A number in decimal is made of digits, after a sign where it is negative.
pub proof fn numbers_are_written_in_digits(n: i64)
    ensures
        signed_decimal(n as int).len() > 0,
        is_digit(signed_decimal(n as int).last()),
        forall|i: int|
            0 <= i < signed_decimal(n as int).len() ==> is_digit(
                #[trigger] signed_decimal(n as int)[i],
            ) || signed_decimal(n as int)[i] == '-',
{
    if n < 0 {
        let digits = decimal((-n) as nat);
        lemma_decimal_reads_back((-n) as nat);
        assert(signed_decimal(n as int).last() == digits[digits.len() - 1]);
    } else {
        lemma_decimal_reads_back(n as nat);
        let digits = decimal(n as nat);
        assert(is_digit(digits[digits.len() - 1]));
    }
}

/// Two numbers written alike are equal.
pub proof fn decimal_is_injective(a: nat, b: nat)
    requires
        decimal(a) == decimal(b),
    ensures
        a == b,
{
    lemma_decimal_reads_back(a);
    lemma_decimal_reads_back(b);
}

/// A number filled up with zeros has at least the width, and stands for the number:
/// zeros and then its digits, none where its digits fill the width.
pub proof fn filled_up_numbers_keep_their_value(n: nat, width: nat)
    ensures
        padded(n, width).len() >= width,
        padded(n, width).len() >= decimal(n).len(),
        padded(n, width).skip(padded(n, width).len() - decimal(n).len()) == decimal(n),
        forall|i: int|
            0 <= i < padded(n, width).len() - decimal(n).len() ==> #[trigger] padded(n, width)[i]
                == '0',
        decimal(n).len() >= width ==> padded(n, width) == decimal(n),
        decimal(n).len() < width ==> padded(n, width).len() == width,
{
    let digits = decimal(n);
    let zeros = padded(n, width).len() - digits.len();
    assert(padded(n, width).skip(zeros) == digits);
}

/// A number in decimal has no zero in front but for zero itself, and one more digit
/// with every power of ten.
pub proof fn numbers_have_no_leading_zero(n: nat)
    ensures
        decimal(n).len() > 0,
        decimal(n)[0] == '0' <==> n == 0,
        n >= 10 ==> decimal(n).len() == decimal(n / 10).len() + 1,
        n < 10 ==> decimal(n).len() == 1,
        digits_value(decimal(n)) == n,
    decreases n,
{
    lemma_decimal_reads_back(n);
    if n >= 10 {
        numbers_have_no_leading_zero(n / 10);
        assert(decimal(n)[0] == decimal(n / 10)[0]);
    }
}

/// A row of digits stands for ten times the row before its last digit, and that digit.
pub proof fn digits_count_in_tens(s: Seq<char>, c: char)
    requires
        48 <= c as int <= 57,
    ensures
        digits_value(s.push(c)) == 10 * digits_value(s) + (c as int - 48),
        digits_value(Seq::<char>::empty()) == 0,
{
    assert(s.push(c).drop_last() == s);
}

} // verus!
