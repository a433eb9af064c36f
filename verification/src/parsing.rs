//! Reading an amount from text.
//!
//! An amount is written as an integer, which may hold `,` between its
//! digits, and at most one `.` with the digits of the fraction behind it.
//! Both sides of the `.` are held to the range of a 32-bit integer. The
//! decimal number itself is read by `rust_decimal`; what it returns is
//! rounded to hundredths, half to even.

use vstd::prelude::*;
use rust_decimal::Decimal;
use std::str::FromStr;

verus! {

/// The sign that separates the integer part from the fraction.
pub const DELIMITER: char = '.';

/// The sign that may stand between the digits of the integer part.
pub const SEPARATOR: char = ',';

/// Whether `c` is one of the digits `0` to `9`.
pub open spec fn is_digit(c: char) -> bool {
    0x30 <= c as u32 <= 0x39
}

/// Whether every character of `text` is a digit.
pub open spec fn all_digits(text: Seq<char>) -> bool {
    forall|i: int| 0 <= i < text.len() ==> is_digit(#[trigger] text[i])
}

/// The number that the digits of `digits` write in base ten.
pub open spec fn digits_value(digits: Seq<char>) -> int
    decreases digits.len(),
{
    if digits.len() == 0 {
        0
    } else {
        digits_value(digits.drop_last()) * 10 + (digits.last() as u32 - 0x30)
    }
}

/// Whether `text` starts with a sign.
pub open spec fn has_sign(text: Seq<char>) -> bool {
    text.len() > 0 && (text[0] == '+' || text[0] == '-')
}

/// The digits of `text`: all of it but a leading sign.
pub open spec fn unsigned_part(text: Seq<char>) -> Seq<char> {
    if has_sign(text) {
        text.skip(1)
    } else {
        text
    }
}

/// Whether `text` writes a 32-bit integer: an optional sign, then one
/// digit or more, with a value from -2147483648 to 2147483647.
pub open spec fn is_integer_text(text: Seq<char>) -> bool {
    let digits = unsigned_part(text);
    &&& digits.len() > 0
    &&& all_digits(digits)
    &&& if text[0] == '-' {
        digits_value(digits) <= 0x8000_0000
    } else {
        digits_value(digits) <= 0x7fff_ffff
    }
}

/// The place of the first `.` in `text` at or behind `from`, or the length
/// of `text` where there is none.
pub open spec fn delimiter_from(text: Seq<char>, from: int) -> int
    decreases text.len() - from,
{
    if from >= text.len() {
        text.len() as int
    } else if text[from] == DELIMITER {
        from
    } else {
        delimiter_from(text, from + 1)
    }
}

/// `text` without its separators.
pub open spec fn without_separators(text: Seq<char>) -> Seq<char>
    decreases text.len(),
{
    if text.len() == 0 {
        text
    } else if text.last() == SEPARATOR {
        without_separators(text.drop_last())
    } else {
        without_separators(text.drop_last()).push(text.last())
    }
}

/// The integer part of `text`, separators taken out.
pub open spec fn integer_part(text: Seq<char>) -> Seq<char> {
    without_separators(text.take(delimiter_from(text, 0)))
}

/// What follows the first `.` of `text`, where there is one.
pub open spec fn fraction_part(text: Seq<char>) -> Option<Seq<char>> {
    let at = delimiter_from(text, 0);
    if at < text.len() {
        Some(text.skip(at + 1))
    } else {
        None
    }
}

/// The decimal number that `text` writes, as it is handed on to be read:
/// the integer part without separators, the `.`, and the fraction, which is
/// `00` where `text` has none. `None` where `text` is no amount.
pub open spec fn decimal_text(text: Seq<char>) -> Option<Seq<char>> {
    let whole = integer_part(text);
    if !is_integer_text(whole) {
        None
    } else {
        match fraction_part(text) {
            None => Some(whole + seq![DELIMITER, '0', '0']),
            Some(fraction) => if is_integer_text(fraction) {
                Some(whole + seq![DELIMITER] + fraction)
            } else {
                None
            },
        }
    }
}

/// Ten to the power of `exponent`.
pub open spec fn pow10(exponent: nat) -> int
    decreases exponent,
{
    if exponent == 0 {
        1
    } else {
        10 * pow10((exponent - 1) as nat)
    }
}

/// `value` divided by `unit` and rounded to the nearest integer; a value
/// half-way between two integers goes to the even one.
pub open spec fn round_half_even(value: int, unit: int) -> int {
    let below = value / unit;
    let rest = value % unit;
    if 2 * rest < unit {
        below
    } else if 2 * rest > unit {
        below + 1
    } else if below % 2 == 0 {
        below
    } else {
        below + 1
    }
}

/// The hundredths in the decimal number `mantissa / 10^scale`, rounded half
/// to even.
pub open spec fn rounded_hundredths(mantissa: int, scale: nat) -> int {
    if scale <= 2 {
        mantissa * pow10((2 - scale) as nat)
    } else {
        round_half_even(mantissa, pow10((scale - 2) as nat))
    }
}

/// The largest scale of a decimal number that this library reads.
pub const MAX_SCALE: u32 = 28;

/// The hundredths that a decimal number comes to, where the scale is at
/// most 28 and the hundredths fit in 64 bits.
pub open spec fn decimal_hundredths(mantissa: int, scale: nat) -> Option<int> {
    if scale <= MAX_SCALE && i64::MIN <= rounded_hundredths(mantissa, scale) <= i64::MAX {
        Some(rounded_hundredths(mantissa, scale))
    } else {
        None
    }
}

/// What `rust_decimal` reads from a text: the mantissa and the scale of the
/// decimal number, or `None` where it refuses the text.
pub uninterp spec fn decimal_from_str(text: Seq<char>) -> Option<(int, nat)>;

/// The hundredths that the amount written in `text` comes to.
pub open spec fn text_hundredths(text: Seq<char>) -> Option<int> {
    match decimal_text(text) {
        None => None,
        Some(number) => match decimal_from_str(number) {
            None => None,
            Some((mantissa, scale)) => decimal_hundredths(mantissa, scale),
        },
    }
}

/// Calls `rust_decimal::Decimal::from_str` on the text made of `text`'s
/// characters and hands back the mantissa and the scale of the number it
/// read. The contract claims only that the outcome is a function of the
/// text, and names it.
#[verifier::external_body]
fn read_decimal(text: &Vec<char>) -> (number: Option<(i128, u32)>)
    ensures
        number is Some <==> decimal_from_str(text@) is Some,
        number matches Some((mantissa, scale)) ==> decimal_from_str(text@) == Some(
            (mantissa as int, scale as nat),
        ),
{
    let text: String = text.iter().collect();
    match Decimal::from_str(&text) {
        Ok(number) => Some((number.mantissa(), number.scale())),
        Err(_) => None,
    }
}

/// The characters of `text`.
pub fn chars_of(text: &str) -> (chars: Vec<char>)
    ensures
        chars@ == text@,
{
    let n = text.unicode_len();
    let mut chars: Vec<char> = Vec::new();
    let mut i: usize = 0;
    while i < n
        invariant
            n == text@.len(),
            i <= n,
            chars@ == text@.take(i as int),
        decreases n - i,
    {
        chars.push(text.get_char(i));
        i += 1;
    }
    chars
}

/// The value of a longer run of digits is at least that of a shorter run
/// it starts with.
proof fn lemma_digits_value_grows(digits: Seq<char>, count: int)
    requires
        all_digits(digits),
        0 <= count <= digits.len(),
    ensures
        0 <= digits_value(digits.take(count)) <= digits_value(digits),
    decreases digits.len() - count,
{
    if count == digits.len() {
        assert(digits.take(count) =~= digits);
        lemma_digits_value_not_negative(digits);
    } else {
        lemma_digits_value_grows(digits, count + 1);
        assert(digits.take(count + 1).drop_last() =~= digits.take(count));
        lemma_digits_value_not_negative(digits.take(count));
    }
}

/// A run of digits writes no negative number.
proof fn lemma_digits_value_not_negative(digits: Seq<char>)
    requires
        all_digits(digits),
    ensures
        0 <= digits_value(digits),
    decreases digits.len(),
{
    if digits.len() > 0 {
        lemma_digits_value_not_negative(digits.drop_last());
    }
}

/// Whether `text[from..to]` writes a 32-bit integer.
fn is_integer(text: &Vec<char>, from: usize, to: usize) -> (ok: bool)
    requires
        from <= to <= text@.len(),
    ensures
        ok == is_integer_text(text@.subrange(from as int, to as int)),
{
    let ghost part = text@.subrange(from as int, to as int);
    if from == to {
        return false;
    }
    let first = text[from];
    let negative = first == '-';
    let start = if first == '+' || first == '-' {
        from + 1
    } else {
        from
    };
    let ghost digits = unsigned_part(part);
    if start == to {
        return false;
    }
    let limit: u64 = if negative {
        0x8000_0000
    } else {
        0x7fff_ffff
    };
    let mut value: u64 = 0;
    let mut i: usize = start;
    while i < to
        invariant
            start <= i <= to,
            to <= text@.len(),
            part == text@.subrange(from as int, to as int),
            part.len() > 0,
            digits == unsigned_part(part),
            negative == (part[0] == '-'),
            limit == if negative { 0x8000_0000u64 } else { 0x7fff_ffffu64 },
            digits == text@.subrange(start as int, to as int),
            all_digits(digits.take(i - start)),
            value == digits_value(digits.take(i - start)),
            value <= limit,
            limit <= 0x8000_0000,
        decreases to - i,
    {
        let c = text[i];
        let code = c as u32;
        assert(digits[i - start] == c);
        assert(digits.take(i - start + 1).drop_last() =~= digits.take(i - start));
        if code < 0x30 || code > 0x39 {
            return false;
        }
        value = value * 10 + (code - 0x30) as u64;
        if value > limit {
            proof {
                if all_digits(digits) {
                    lemma_digits_value_grows(digits, i - start + 1);
                }
            }
            return false;
        }
        assert forall|j: int| 0 <= j < i - start + 1 implies is_digit(
            #[trigger] digits.take(i - start + 1)[j],
        ) by {
            if j < i - start {
                assert(digits.take(i - start)[j] == digits[j]);
            }
        }
        i += 1;
    }
    assert(digits.take(to - start) =~= digits);
    true
}

/// The place of the first `.` in `text`, or its length where there is none.
fn find_delimiter(text: &Vec<char>) -> (at: usize)
    ensures
        at == delimiter_from(text@, 0),
        at <= text@.len(),
{
    let n = text.len();
    let mut i: usize = 0;
    while i < n
        invariant
            n == text@.len(),
            i <= n,
            delimiter_from(text@, 0) == delimiter_from(text@, i as int),
        decreases n - i,
    {
        if text[i] == DELIMITER {
            return i;
        }
        i += 1;
    }
    i
}

/// The text that is handed on to be read as a decimal number, where `text`
/// is an amount.
pub fn prepare(text: &Vec<char>) -> (number: Option<Vec<char>>)
    ensures
        number is Some <==> decimal_text(text@) is Some,
        number matches Some(n) ==> decimal_text(text@) == Some(n@),
{
    let n = text.len();
    let at = find_delimiter(text);
    let mut number: Vec<char> = Vec::new();
    let mut i: usize = 0;
    while i < at
        invariant
            at <= n,
            n == text@.len(),
            i <= at,
            number@ == without_separators(text@.take(at as int).take(i as int)),
        decreases at - i,
    {
        let c = text[i];
        assert(text@.take(at as int).take(i + 1).drop_last() =~= text@.take(at as int).take(
            i as int,
        ));
        if c != SEPARATOR {
            number.push(c);
        }
        i += 1;
    }
    assert(text@.take(at as int).take(at as int) =~= text@.take(at as int));
    let whole_len = number.len();
    assert(number@.subrange(0, whole_len as int) =~= number@);
    if !is_integer(&number, 0, whole_len) {
        return None;
    }
    let ghost whole = number@;
    number.push(DELIMITER);
    if at == n {
        number.push('0');
        number.push('0');
        Some(number)
    } else {
        if !is_integer(text, at + 1, n) {
            return None;
        }
        let mut j: usize = at + 1;
        while j < n
            invariant
                at + 1 <= j <= n,
                n == text@.len(),
                number@ == whole + seq![DELIMITER] + text@.subrange(at + 1, j as int),
            decreases n - j,
        {
            number.push(text[j]);
            j += 1;
        }
        Some(number)
    }
}

/// Ten to the power of `exponent`.
fn power_of_ten(exponent: u32) -> (power: i128)
    requires
        exponent <= MAX_SCALE,
    ensures
        power == pow10(exponent as nat),
        1 <= power <= 10_000_000_000_000_000_000_000_000_000,
{
    let mut power: i128 = 1;
    let mut i: u32 = 0;
    proof {
        lemma_pow10_largest();
    }
    while i < exponent
        invariant
            i <= exponent <= MAX_SCALE,
            power == pow10(i as nat),
            1 <= power,
            power * pow10((MAX_SCALE - i) as nat) == 10_000_000_000_000_000_000_000_000_000,
        decreases exponent - i,
    {
        proof {
            let rest = pow10((MAX_SCALE - i - 1) as nat);
            lemma_pow10_positive((MAX_SCALE - i - 1) as nat);
            assert(power * (10 * rest) == (power * 10) * rest) by (nonlinear_arith);
            assert(power * 10 <= (power * 10) * rest) by (nonlinear_arith)
                requires
                    rest >= 1,
                    power >= 1,
            ;
        }
        power = power * 10;
        i += 1;
    }
    proof {
        lemma_pow10_positive((MAX_SCALE - exponent) as nat);
        let rest = pow10((MAX_SCALE - exponent) as nat);
        assert(power <= power * rest) by (nonlinear_arith)
            requires
                rest >= 1,
                power >= 1,
        ;
    }
    power
}

/// Ten to the power of the largest scale, written out.
proof fn lemma_pow10_largest()
    ensures
        pow10(MAX_SCALE as nat) == 10_000_000_000_000_000_000_000_000_000,
{
    reveal_with_fuel(pow10, 10);
    assert(pow10(18) == 1_000_000_000 * pow10(9));
}

/// A power of ten is at least one.
pub proof fn lemma_pow10_positive(exponent: nat)
    ensures
        pow10(exponent) >= 1,
    decreases exponent,
{
    if exponent > 0 {
        lemma_pow10_positive((exponent - 1) as nat);
    }
}

/// The hundredths in the decimal number `mantissa / 10^scale`, rounded half
/// to even; `None` where the scale is above 28 or the hundredths do not
/// fit in 64 bits.
pub fn hundredths_of_decimal(mantissa: i128, scale: u32) -> (hundredths: Option<i64>)
    ensures
        hundredths is Some <==> decimal_hundredths(mantissa as int, scale as nat) is Some,
        hundredths matches Some(h) ==> decimal_hundredths(mantissa as int, scale as nat) == Some(
            h as int,
        ),
{
    if scale > MAX_SCALE {
        return None;
    }
    let rounded: i128 = if scale <= 2 {
        let factor = power_of_ten(2 - scale);
        assert(factor == 1 || factor == 10 || factor == 100) by {
            reveal_with_fuel(pow10, 3);
        }
        match mantissa.checked_mul(factor) {
            Some(product) => product,
            None => {
                return None;
            },
        }
    } else {
        let unit = power_of_ten(scale - 2);
        assert(unit >= 10) by {
            lemma_pow10_positive((scale - 3) as nat);
        }
        proof {
            let q = mantissa as int / unit as int;
            let r = mantissa as int % unit as int;
            vstd::arithmetic::div_mod::lemma_fundamental_div_mod(mantissa as int, unit as int);
            vstd::arithmetic::div_mod::lemma_mod_bound(mantissa as int, unit as int);
            assert(-0x1000_0000_0000_0000_0000_0000_0000_0000 <= q
                <= 0x1000_0000_0000_0000_0000_0000_0000_0000) by (nonlinear_arith)
                requires
                    mantissa == unit * q + r,
                    0 <= r < unit,
                    unit >= 10,
                    -0x8000_0000_0000_0000_0000_0000_0000_0000 <= mantissa
                        <= 0x8000_0000_0000_0000_0000_0000_0000_0000,
            ;
        }
        let below: i128 = mantissa.checked_div_euclid(unit).unwrap();
        let rest: i128 = mantissa.checked_rem_euclid(unit).unwrap();
        let even: bool = below.checked_rem_euclid(2).unwrap() == 0;
        if 2 * rest < unit {
            below
        } else if 2 * rest > unit {
            below + 1
        } else if even {
            below
        } else {
            below + 1
        }
    };
    if rounded < i64::MIN as i128 || rounded > i64::MAX as i128 {
        None
    } else {
        Some(rounded as i64)
    }
}

/// The hundredths that the amount written in `text` comes to, where `text`
/// is an amount that can be read and held.
pub fn read_hundredths(text: &str) -> (hundredths: Option<i64>)
    ensures
        hundredths is Some <==> text_hundredths(text@) is Some,
        hundredths matches Some(h) ==> text_hundredths(text@) == Some(h as int),
{
    let chars = chars_of(text);
    match prepare(&chars) {
        None => None,
        Some(number) => match read_decimal(&number) {
            None => None,
            Some((mantissa, scale)) => hundredths_of_decimal(mantissa, scale),
        },
    }
}

} // verus!
