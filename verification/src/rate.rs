//! Sampling rates.
//!
//! A rate is written as a decimal numeral between 0 and 1, the form in which
//! it is also sent to the server: `1`, `0.5`, `0.999`. For the sampler it is
//! turned into a 32-bit threshold, so that the decision to sample is one
//! integer comparison: a drawn value is accepted when it is greater than the
//! threshold. Rate 1 maps to threshold 0, rate 0 to `u32::MAX`.
use vstd::prelude::*;
use vstd::string::StrSliceExecFns;

verus! {

/// The rate at which every sample is taken.
pub const FULL_SAMPLING_RATE: &'static str = "1";

/// Why a text is not accepted as a sampling rate.
#[derive(Clone, Copy, Debug, PartialEq, Eq, Structural)]
pub enum RateError {
    /// The text is not a decimal numeral.
    Malformed,
    /// The numeral denotes a number below 0 or above 1.
    OutOfRange,
}

/// A sampling rate, ready for use.
#[derive(Clone, Copy, Debug, PartialEq, Eq, Structural)]
pub struct SamplingRate {
    /// The threshold that a drawn value must exceed.
    pub int_rate: u32,
    /// Whether the rate is 1, so that no annotation goes on the wire.
    pub full: bool,
}

/// Whether `c` is one of the ten decimal digits.
pub open spec fn is_digit(c: char) -> bool {
    '0' <= c && c <= '9'
}

/// The number from 0 to 9 that a digit stands for.
pub open spec fn digit_value(c: char) -> nat {
    (c as int - '0' as int) as nat
}

/// Whether every character of `text` is a digit.
pub open spec fn all_digits(text: Seq<char>) -> bool {
    forall|i: int| 0 <= i < text.len() ==> is_digit(#[trigger] text[i])
}

/// Ten to the power `exponent`.
pub open spec fn pow10(exponent: nat) -> nat
    decreases exponent,
{
    if exponent == 0 {
        1
    } else {
        10 * pow10((exponent - 1) as nat)
    }
}

/// The number that a run of digits denotes, most significant digit first.
pub open spec fn digits_value(digits: Seq<char>) -> nat
    decreases digits.len(),
{
    if digits.len() == 0 {
        0
    } else {
        digits_value(digits.drop_last()) * 10 + digit_value(digits.last())
    }
}

/// Whether the text starts with a minus sign.
pub open spec fn is_negative(text: Seq<char>) -> bool {
    text.len() > 0 && text[0] == '-'
}

/// The text without its sign.
pub open spec fn magnitude(text: Seq<char>) -> Seq<char> {
    if is_negative(text) {
        text.skip(1)
    } else {
        text
    }
}

/// What stands before the decimal point.
pub open spec fn whole_part(text: Seq<char>) -> Seq<char> {
    match magnitude(text).index_of_first('.') {
        Some(point) => magnitude(text).take(point),
        None => magnitude(text),
    }
}

/// What stands after the decimal point; empty where there is no point.
pub open spec fn fraction_part(text: Seq<char>) -> Seq<char> {
    match magnitude(text).index_of_first('.') {
        Some(point) => magnitude(text).skip(point + 1),
        None => Seq::empty(),
    }
}

/// A decimal numeral: an optional minus sign, one or more digits, and
/// optionally a point followed by one or more digits.
pub open spec fn well_formed(text: Seq<char>) -> bool {
    &&& whole_part(text).len() > 0
    &&& all_digits(whole_part(text))
    &&& all_digits(fraction_part(text))
    &&& magnitude(text).contains('.') ==> fraction_part(text).len() > 0
}

/// The numeral's magnitude is `numerator / denominator`: the numerator is
/// the number that its digits denote with the point taken out.
pub open spec fn numerator(text: Seq<char>) -> nat {
    digits_value(whole_part(text) + fraction_part(text))
}

/// Ten to the number of digits after the point.
pub open spec fn denominator(text: Seq<char>) -> nat {
    pow10(fraction_part(text).len())
}

/// The numeral denotes a number in the closed interval from 0 to 1.
pub open spec fn in_range(text: Seq<char>) -> bool {
    &&& numerator(text) <= denominator(text)
    &&& is_negative(text) ==> numerator(text) == 0
}

/// The numeral denotes 1.
pub open spec fn is_full(text: Seq<char>) -> bool {
    numerator(text) == denominator(text)
}

/// The threshold of the rate `numerator / denominator`:
/// `(1 - rate) * u32::MAX`, rounded to the nearest integer, halves upward.
pub open spec fn threshold(numerator: nat, denominator: nat) -> int {
    (2 * (denominator - numerator) * (u32::MAX as int) + denominator) / (2 * denominator as int)
}

/// The threshold of the rate that a numeral denotes.
pub open spec fn int_rate_of(text: Seq<char>) -> int {
    threshold(numerator(text), denominator(text))
}

/// What a rate adds to the unit tag on the wire: nothing for the full rate,
/// else `|@` and the numeral as it was given.
pub open spec fn rate_suffix(text: Seq<char>) -> Seq<char> {
    if is_full(text) {
        Seq::empty()
    } else {
        seq!['|', '@'] + text
    }
}

/// Powers of ten are positive.
proof fn lemma_pow10_positive(exponent: nat)
    ensures
        pow10(exponent) > 0,
    decreases exponent,
{
    if exponent > 0 {
        lemma_pow10_positive((exponent - 1) as nat);
    }
}

/// Digits written after other digits shift those up by one power of ten each.
proof fn lemma_digits_value_concat(high: Seq<char>, low: Seq<char>)
    ensures
        digits_value(high + low) == digits_value(high) * pow10(low.len()) + digits_value(low),
    decreases low.len(),
{
    if low.len() == 0 {
        assert(high + low =~= high);
        assert(pow10(low.len()) == 1);
        assert(digits_value(high) * 1 == digits_value(high));
    } else {
        let front = low.drop_last();
        let whole = high + low;
        assert(whole.drop_last() =~= high + front);
        assert(whole.last() == low.last());
        lemma_digits_value_concat(high, front);
        let h = digits_value(high);
        let f = digits_value(front);
        let p = pow10(front.len());
        assert(pow10(low.len()) == 10 * p);
        assert(digits_value(whole) == (h * p + f) * 10 + digit_value(low.last()));
        assert(digits_value(low) == f * 10 + digit_value(low.last()));
        assert((h * p + f) * 10 == h * (10 * p) + f * 10) by (nonlinear_arith);
        assert(digits_value(whole) == h * pow10(low.len()) + digits_value(low));
    }
}

/// A run of `n` digits denotes a number below ten to the `n`.
proof fn lemma_digits_value_bound(digits: Seq<char>)
    requires
        all_digits(digits),
    ensures
        digits_value(digits) < pow10(digits.len()),
    decreases digits.len(),
{
    if digits.len() > 0 {
        let front = digits.drop_last();
        assert(all_digits(front)) by {
            assert forall|i: int| 0 <= i < front.len() implies is_digit(#[trigger] front[i]) by {
                assert(front[i] == digits[i]);
            }
        }
        lemma_digits_value_bound(front);
        assert(is_digit(digits[digits.len() - 1]));
    }
}

/// The first point of `body` is at `point` when a point stands there and
/// none stands before it.
proof fn lemma_first_point(body: Seq<char>, point: int)
    requires
        0 <= point < body.len(),
        body[point] == '.',
        forall|j: int| 0 <= j < point ==> body[j] != '.',
    ensures
        body.index_of_first('.') == Some(point),
{
    body.index_of_first_ensures('.');
    assert(body.contains('.'));
}

/// Where no point stands, none is found.
proof fn lemma_no_point(body: Seq<char>)
    requires
        forall|j: int| 0 <= j < body.len() ==> body[j] != '.',
    ensures
        body.index_of_first('.') is None,
        !body.contains('.'),
{
    body.index_of_first_ensures('.');
}

/// Rounding `(1 - n/d) * u32::MAX` comes down to dividing `n * u32::MAX` by
/// `d` and looking at which side of one half the remainder lies.
proof fn lemma_threshold_by_division(numerator: nat, denominator: nat)
    requires
        numerator <= denominator,
        denominator > 0,
    ensures
        threshold(numerator, denominator) == u32::MAX - (numerator * u32::MAX) / (
        denominator as int) - (if 2 * ((numerator * u32::MAX) % (denominator as int))
            > denominator {
            1int
        } else {
            0int
        }),
        0 <= threshold(numerator, denominator) <= u32::MAX,
{
    let n = numerator as int;
    let d = denominator as int;
    let u = u32::MAX as int;
    let q = (n * u) / d;
    let r = (n * u) % d;
    vstd::arithmetic::div_mod::lemma_fundamental_div_mod(n * u, d);
    assert(n * u == d * q + r);
    assert(0 <= r < d);
    assert(0 <= q <= u) by (nonlinear_arith)
        requires
            n * u == d * q + r,
            0 <= r < d,
            0 <= n <= d,
            u >= 0,
    ;
    let x = 2 * (d - n) * u + d;
    if 2 * r > d {
        assert(q < u) by (nonlinear_arith)
            requires
                n * u == d * q + r,
                0 < r,
                0 <= n <= d,
                d > 0,
                u >= 0,
        ;
        assert(x == (u - q - 1) * (2 * d) + (3 * d - 2 * r)) by (nonlinear_arith)
            requires
                x == 2 * (d - n) * u + d,
                n * u == d * q + r,
        ;
        vstd::arithmetic::div_mod::lemma_fundamental_div_mod_converse(
            x,
            2 * d,
            u - q - 1,
            3 * d - 2 * r,
        );
    } else {
        assert(x == (u - q) * (2 * d) + (d - 2 * r)) by (nonlinear_arith)
            requires
                x == 2 * (d - n) * u + d,
                n * u == d * q + r,
        ;
        vstd::arithmetic::div_mod::lemma_fundamental_div_mod_converse(
            x,
            2 * d,
            u - q,
            d - 2 * r,
        );
    }
}

/// The value of a digit character, if it is one.
fn digit_of(c: char) -> (digit: Option<u8>)
    ensures
        match digit {
            Some(value) => is_digit(c) && value == digit_value(c),
            None => !is_digit(c),
        },
{
    if c >= '0' && c <= '9' {
        Some((c as u32 - '0' as u32) as u8)
    } else {
        None
    }
}

/// Reads digits from `start` on and stops at the first character that is
/// none, or at the end. Returns where it stopped and the number read, held
/// at 2 once it is 2 or more.
fn scan_whole(text: &str, start: usize, len: usize) -> (scanned: (usize, u8))
    requires
        start <= len,
        len == text@.len(),
    ensures
        start <= scanned.0 <= len,
        all_digits(text@.subrange(start as int, scanned.0 as int)),
        scanned.0 < len ==> !is_digit(text@[scanned.0 as int]),
        scanned.1 == if digits_value(text@.subrange(start as int, scanned.0 as int)) < 2 {
            digits_value(text@.subrange(start as int, scanned.0 as int))
        } else {
            2
        },
{
    let mut end = start;
    let mut whole: u8 = 0;
    let mut more = true;
    assert(text@.subrange(start as int, start as int) =~= Seq::<char>::empty());
    while more && end < len
        invariant
            start <= end <= len,
            len == text@.len(),
            all_digits(text@.subrange(start as int, end as int)),
            !more ==> end < len && !is_digit(text@[end as int]),
            whole == if digits_value(text@.subrange(start as int, end as int)) < 2 {
                digits_value(text@.subrange(start as int, end as int))
            } else {
                2
            },
        decreases len - end + if more { 1int } else { 0int },
    {
        let c = text.get_char(end);
        match digit_of(c) {
            None => {
                more = false;
            },
            Some(digit) => {
                proof {
                    let before = text@.subrange(start as int, end as int);
                    let after = text@.subrange(start as int, end + 1);
                    assert(after.drop_last() =~= before);
                    assert(after.last() == c);
                    assert forall|i: int| 0 <= i < after.len() implies is_digit(
                        #[trigger] after[i],
                    ) by {
                        if i < before.len() {
                            assert(after[i] == before[i]);
                        }
                    }
                }
                let next = whole * 10 + digit;
                whole = if next < 2 {
                    next
                } else {
                    2
                };
                end = end + 1;
            },
        }
    }
    (end, whole)
}

/// Copies the characters from `start` to the end, if all of them are digits.
fn scan_fraction(text: &str, start: usize, len: usize) -> (digits: Option<Vec<char>>)
    requires
        start <= len,
        len == text@.len(),
    ensures
        match digits {
            Some(digits) => digits@ == text@.subrange(start as int, len as int) && all_digits(
                digits@,
            ),
            None => !all_digits(text@.subrange(start as int, len as int)),
        },
{
    let mut digits: Vec<char> = Vec::new();
    let mut at = start;
    while at < len
        invariant
            start <= at <= len,
            len == text@.len(),
            digits@ == text@.subrange(start as int, at as int),
            all_digits(digits@),
        decreases len - at,
    {
        let c = text.get_char(at);
        if digit_of(c).is_none() {
            proof {
                let rest = text@.subrange(start as int, len as int);
                assert(rest[at - start] == c);
            }
            return None;
        }
        digits.push(c);
        assert(digits@ =~= text@.subrange(start as int, at + 1));
        at = at + 1;
    }
    Some(digits)
}

/// `fraction * u32::MAX` for a fraction given by its digits after the point.
struct Scaled {
    /// The whole part of the product.
    quotient: u64,
    /// Whether what is left of the product is more than one half.
    above_half: bool,
    /// Whether nothing is left of the product.
    exact: bool,
}

/// Multiplies the fraction `0.d1 d2 .. dn` by `u32::MAX`, digit by digit
/// from the last one, as on paper: no number larger than ten times
/// `u32::MAX` is ever held, however many digits there are.
fn scale(digits: &Vec<char>) -> (scaled: Scaled)
    requires
        all_digits(digits@),
    ensures
        scaled.quotient == (digits_value(digits@) * u32::MAX) / (pow10(digits@.len()) as int),
        scaled.above_half == (2 * ((digits_value(digits@) * u32::MAX) % (pow10(
            digits@.len(),
        ) as int)) > pow10(digits@.len())),
        scaled.exact == ((digits_value(digits@) * u32::MAX) % (pow10(digits@.len()) as int) == 0),
{
    let len = digits.len();
    let mut at = len;
    let mut carry: u64 = 0;
    let mut top: u64 = 0;
    let mut sticky = false;
    let ghost mut rest: nat = 0;
    let ghost mut low: nat = 0;
    proof {
        assert(digits@.skip(len as int) =~= Seq::<char>::empty());
        lemma_pow10_positive(0);
    }
    while at > 0
        invariant
            at <= len,
            len == digits@.len(),
            all_digits(digits@),
            carry <= u32::MAX,
            top < 10,
            digits_value(digits@.skip(at as int)) * u32::MAX == carry * pow10((len - at) as nat)
                + rest,
            rest < pow10((len - at) as nat),
            at == len ==> rest == 0 && top == 0 && !sticky,
            at < len ==> rest == top * pow10((len - at - 1) as nat) + low && low < pow10(
                (len - at - 1) as nat,
            ) && sticky == (low > 0),
        decreases at,
    {
        let c = digits[at - 1];
        let digit = match digit_of(c) {
            Some(digit) => digit,
            None => 0,
        };
        let product: u64 = (digit as u64) * (u32::MAX as u64) + carry;
        proof {
            let tail = digits@.skip(at as int);
            let longer = digits@.skip(at - 1);
            let unit = pow10((len - at) as nat);
            let value = digits_value(tail);
            assert(longer =~= seq![c] + tail);
            lemma_digits_value_concat(seq![c], tail);
            assert(is_digit(digits@[at - 1]));
            assert(seq![c].drop_last() =~= Seq::<char>::empty());
            assert(seq![c].last() == c);
            assert(digits_value(seq![c]) == digits_value(seq![c].drop_last()) * 10 + digit_value(
                seq![c].last(),
            ));
            assert(digits_value(seq![c]) == digit);
            assert(digits_value(longer) == digit * unit + value);
            lemma_pow10_positive((len - at) as nat);
            assert(pow10((len - at + 1) as nat) == 10 * unit);
            let q = (product / 10) as int;
            let r = (product % 10) as int;
            assert(digits_value(longer) * u32::MAX == q * (10 * unit) + (r * unit + rest))
                by (nonlinear_arith)
                requires
                    digits_value(longer) == digit * unit + value,
                    value * u32::MAX == carry * unit + rest,
                    product == digit * u32::MAX + carry,
                    product == 10 * q + r,
            ;
            assert(r * unit + rest < 10 * unit) by (nonlinear_arith)
                requires
                    0 <= r <= 9,
                    rest < unit,
            ;
            if at < len {
                assert(unit == 10 * pow10((len - at - 1) as nat));
                lemma_pow10_positive((len - at - 1) as nat);
                assert((rest > 0) == (top != 0 || low > 0)) by (nonlinear_arith)
                    requires
                        rest == top * pow10((len - at - 1) as nat) + low,
                        pow10((len - at - 1) as nat) > 0,
                        top >= 0,
                        low >= 0,
                ;
            }
            low = rest;
            rest = (r * unit + rest) as nat;
        }
        sticky = sticky || top != 0;
        top = product % 10;
        carry = product / 10;
        at = at - 1;
    }
    proof {
        let scale = pow10(len as nat) as int;
        let value = digits_value(digits@) * u32::MAX;
        assert(digits@.skip(0) =~= digits@);
        lemma_pow10_positive(len as nat);
        assert(value == carry * scale + rest);
        vstd::arithmetic::div_mod::lemma_fundamental_div_mod_converse(
            value,
            scale,
            carry as int,
            rest as int,
        );
        if len > 0 {
            let unit = pow10((len - 1) as nat);
            lemma_pow10_positive((len - 1) as nat);
            assert(scale == 10 * unit);
            assert((2 * rest > scale) == (top > 5 || (top == 5 && low > 0))) by (nonlinear_arith)
                requires
                    rest == top * unit + low,
                    scale == 10 * unit,
                    0 <= low < unit,
                    0 <= top < 10,
            ;
            assert((rest == 0) == (top == 0 && low == 0)) by (nonlinear_arith)
                requires
                    rest == top * unit + low,
                    0 <= low < unit,
                    0 <= top,
            ;
        }
    }
    Scaled { quotient: carry, above_half: top > 5 || (top == 5 && sticky), exact: top == 0 && !sticky }
}

/// A character that is neither a digit nor the first point, with nothing
/// but digits before it, spoils the numeral.
proof fn lemma_stray_character(text: Seq<char>, at: int)
    requires
        0 <= at < magnitude(text).len(),
        !is_digit(magnitude(text)[at]),
        magnitude(text)[at] != '.',
        forall|j: int| 0 <= j < at ==> is_digit(#[trigger] magnitude(text)[j]),
    ensures
        !well_formed(text),
{
    let body = magnitude(text);
    body.index_of_first_ensures('.');
    match body.index_of_first('.') {
        Some(point) => {
            if point < at {
                assert(is_digit(body[point]));
            }
            assert(whole_part(text)[at] == body[at]);
        },
        None => {
            assert(whole_part(text)[at] == body[at]);
        },
    }
}

/// Where the first point stands and only digits stand before it, the
/// numeral splits there.
proof fn lemma_split_at_point(text: Seq<char>, point: int)
    requires
        0 <= point < magnitude(text).len(),
        magnitude(text)[point] == '.',
        forall|j: int| 0 <= j < point ==> is_digit(#[trigger] magnitude(text)[j]),
    ensures
        magnitude(text).contains('.'),
        whole_part(text) == magnitude(text).take(point),
        fraction_part(text) == magnitude(text).skip(point + 1),
{
    let body = magnitude(text);
    assert forall|j: int| 0 <= j < point implies body[j] != '.' by {
        assert(is_digit(body[j]));
    }
    lemma_first_point(body, point);
}

/// Where only digits stand, there is no fraction.
proof fn lemma_split_without_point(text: Seq<char>)
    requires
        all_digits(magnitude(text)),
    ensures
        !magnitude(text).contains('.'),
        whole_part(text) == magnitude(text),
        fraction_part(text) == Seq::<char>::empty(),
{
    let body = magnitude(text);
    assert forall|j: int| 0 <= j < body.len() implies body[j] != '.' by {
        assert(is_digit(body[j]));
    }
    lemma_no_point(body);
}

/// The parts of a numeral that its range and its threshold depend on.
struct Parts {
    /// Whether a minus sign stands in front.
    negative: bool,
    /// The number before the point, held at 2 once it is 2 or more.
    whole: u8,
    /// The digits after the point.
    fraction: Vec<char>,
}

/// Takes a numeral apart, or finds that the text is none.
fn split(text: &str) -> (parts: Option<Parts>)
    ensures
        match parts {
            Some(parts) => {
                &&& well_formed(text@)
                &&& parts.negative == is_negative(text@)
                &&& parts.whole == if digits_value(whole_part(text@)) < 2 {
                    digits_value(whole_part(text@))
                } else {
                    2
                }
                &&& parts.fraction@ == fraction_part(text@)
            },
            None => !well_formed(text@),
        },
{
    let len = text.unicode_len();
    let negative = len > 0 && text.get_char(0) == '-';
    let start: usize = if negative {
        1
    } else {
        0
    };
    let ghost body = magnitude(text@);
    assert(body =~= text@.subrange(start as int, len as int));
    let (point, whole) = scan_whole(text, start, len);
    let ghost digits = text@.subrange(start as int, point as int);
    assert forall|j: int| 0 <= j < point - start implies is_digit(#[trigger] body[j]) by {
        assert(body[j] == digits[j]);
    }
    if point == start {
        proof {
            if start < len {
                if body[0] == '.' {
                    lemma_split_at_point(text@, 0);
                } else {
                    lemma_stray_character(text@, 0);
                }
            } else {
                lemma_split_without_point(text@);
            }
        }
        return None;
    }
    let fraction = if point < len {
        if text.get_char(point) != '.' {
            proof {
                lemma_stray_character(text@, point - start);
            }
            return None;
        }
        proof {
            lemma_split_at_point(text@, point - start);
            assert(body.skip(point - start + 1) =~= text@.subrange(point + 1, len as int));
        }
        if point + 1 == len {
            return None;
        }
        match scan_fraction(text, point + 1, len) {
            Some(fraction) => fraction,
            None => {
                return None;
            },
        }
    } else {
        proof {
            assert(body =~= digits);
            lemma_split_without_point(text@);
        }
        Vec::new()
    };
    assert(whole_part(text@) =~= digits);
    Some(Parts { negative, whole, fraction })
}

/// A numeral denotes a number from 0 to 1 when nothing but zeros stands
/// before its point, or a one with nothing but zeros after the point; and
/// with a minus sign, when it denotes zero.
proof fn lemma_range_by_parts(text: Seq<char>)
    requires
        all_digits(fraction_part(text)),
    ensures
        denominator(text) > 0,
        digits_value(fraction_part(text)) < denominator(text),
        in_range(text) == {
            let whole = digits_value(whole_part(text));
            let fraction = digits_value(fraction_part(text));
            ||| whole == 0 && (fraction == 0 || !is_negative(text))
            ||| whole == 1 && fraction == 0 && !is_negative(text)
        },
        is_full(text) == (digits_value(whole_part(text)) == 1 && digits_value(fraction_part(text))
            == 0),
        digits_value(whole_part(text)) == 0 ==> numerator(text) == digits_value(
            fraction_part(text),
        ),
{
    let w = digits_value(whole_part(text));
    let f = digits_value(fraction_part(text));
    let d = pow10(fraction_part(text).len());
    lemma_digits_value_concat(whole_part(text), fraction_part(text));
    lemma_digits_value_bound(fraction_part(text));
    lemma_pow10_positive(fraction_part(text).len());
    assert(numerator(text) == w * d + f);
    assert(w >= 2 ==> w * d + f > d) by (nonlinear_arith)
        requires
            d > 0,
            f >= 0,
    ;
    assert(w == 1 ==> w * d + f == d + f) by (nonlinear_arith);
    assert(w == 0 ==> w * d + f == f) by (nonlinear_arith);
}

/// A fraction is zero when nothing is left of it, before or after the
/// point, once it is multiplied by a positive number.
proof fn lemma_zero_by_product(fraction: nat, denominator: nat)
    requires
        denominator > 0,
    ensures
        (fraction == 0) == ((fraction * u32::MAX) / (denominator as int) == 0 && (fraction
            * u32::MAX) % (denominator as int) == 0),
{
    let product = fraction * u32::MAX;
    vstd::arithmetic::div_mod::lemma_fundamental_div_mod(product, denominator as int);
    assert((fraction == 0) == (product == 0)) by (nonlinear_arith)
        requires
            product == fraction * u32::MAX,
    ;
    let q = product / (denominator as int);
    if q == 0 {
        assert((denominator as int) * q == 0);
    }
}

/// Reads a sampling rate from its decimal numeral.
///
/// The numeral is an optional minus sign, digits, and optionally a point
/// and more digits. It must denote a number from 0 to 1, both included;
/// a rate outside is refused, never clamped.
pub fn parse(text: &str) -> (parsed: Result<SamplingRate, RateError>)
    ensures
        match parsed {
            Ok(rate) => {
                &&& well_formed(text@)
                &&& in_range(text@)
                &&& rate.int_rate == int_rate_of(text@)
                &&& rate.full == is_full(text@)
            },
            Err(RateError::Malformed) => !well_formed(text@),
            Err(RateError::OutOfRange) => well_formed(text@) && !in_range(text@),
        },
{
    let parts = match split(text) {
        Some(parts) => parts,
        None => {
            return Err(RateError::Malformed);
        },
    };
    let scaled = scale(&parts.fraction);
    let zero = scaled.quotient == 0 && scaled.exact;
    proof {
        lemma_range_by_parts(text@);
        lemma_zero_by_product(digits_value(fraction_part(text@)), denominator(text@));
    }
    if parts.whole >= 2 || (parts.whole == 1 && !zero) || (parts.negative && !(parts.whole == 0
        && zero)) {
        return Err(RateError::OutOfRange);
    }
    proof {
        lemma_threshold_by_division(numerator(text@), denominator(text@));
    }
    if parts.whole == 1 {
        proof {
            lemma_threshold_endpoints(denominator(text@));
        }
        Ok(SamplingRate { int_rate: 0, full: true })
    } else {
        let round: u64 = if scaled.above_half {
            1
        } else {
            0
        };
        let int_rate = u32::MAX as u64 - scaled.quotient - round;
        Ok(SamplingRate { int_rate: int_rate as u32, full: false })
    }
}

/// Converts a sampling rate to an integer so that a fast integer generator
/// can decide: a drawn value is accepted when it is greater than the result.
///
/// rate | result       | share of the samples sent
/// ---- | ------------ | ----
/// `1`  | `0`          | all
/// `0`  | `0xFFFFFFFF` | none
pub fn to_int_rate(rate: &str) -> (int_rate: Result<u32, RateError>)
    ensures
        match int_rate {
            Ok(int_rate) => well_formed(rate@) && in_range(rate@) && int_rate == int_rate_of(
                rate@,
            ),
            Err(RateError::Malformed) => !well_formed(rate@),
            Err(RateError::OutOfRange) => well_formed(rate@) && !in_range(rate@),
        },
{
    match parse(rate) {
        Ok(rate) => Ok(rate.int_rate),
        Err(error) => Err(error),
    }
}

/// A quotient is no smaller than another when its numerator is no smaller
/// in proportion.
proof fn lemma_quotient_order(a: int, b: int, c: int, e: int)
    requires
        b > 0,
        e > 0,
        a * e >= c * b,
    ensures
        a / b >= c / e,
{
    vstd::arithmetic::div_mod::lemma_fundamental_div_mod(a, b);
    vstd::arithmetic::div_mod::lemma_fundamental_div_mod(c, e);
    vstd::arithmetic::div_mod::lemma_mod_bound(a, b);
    vstd::arithmetic::div_mod::lemma_mod_bound(c, e);
    let q = a / b;
    let p = c / e;
    if q < p {
        assert(a < b * p) by (nonlinear_arith)
            requires
                a == b * q + a % b,
                a % b < b,
                q + 1 <= p,
                b > 0,
        ;
        assert(a * e < b * p * e) by (nonlinear_arith)
            requires
                a < b * p,
                e > 0,
        ;
        assert(b * p * e <= c * b) by (nonlinear_arith)
            requires
                c == e * p + c % e,
                0 <= c % e,
                b > 0,
        ;
    }
}

/// Rate 1 maps to threshold 0, and rate 0 to the largest threshold.
pub proof fn lemma_threshold_endpoints(denominator: nat)
    requires
        denominator > 0,
    ensures
        threshold(denominator, denominator) == 0,
        threshold(0, denominator) == u32::MAX,
{
    let d = denominator as int;
    vstd::arithmetic::div_mod::lemma_fundamental_div_mod_converse(d, 2 * d, 0, d);
    assert(2 * (d - 0) * (u32::MAX as int) + d == (u32::MAX as int) * (2 * d) + d)
        by (nonlinear_arith);
    vstd::arithmetic::div_mod::lemma_fundamental_div_mod_converse(
        2 * (d - 0) * (u32::MAX as int) + d,
        2 * d,
        u32::MAX as int,
        d,
    );
}

/// The threshold does not increase as the rate increases: of two rates
/// between 0 and 1, the one that is no lower has the threshold that is no
/// higher.
pub proof fn lemma_threshold_monotone(
    lower_numerator: nat,
    lower_denominator: nat,
    higher_numerator: nat,
    higher_denominator: nat,
)
    requires
        0 < lower_denominator,
        0 < higher_denominator,
        lower_numerator <= lower_denominator,
        higher_numerator <= higher_denominator,
        lower_numerator * higher_denominator <= higher_numerator * lower_denominator,
    ensures
        threshold(lower_numerator, lower_denominator) >= threshold(
            higher_numerator,
            higher_denominator,
        ),
{
    let n1 = lower_numerator as int;
    let d1 = lower_denominator as int;
    let n2 = higher_numerator as int;
    let d2 = higher_denominator as int;
    let u = u32::MAX as int;
    let x1 = 2 * (d1 - n1) * u + d1;
    let x2 = 2 * (d2 - n2) * u + d2;
    assert(x1 * (2 * d2) >= x2 * (2 * d1)) by (nonlinear_arith)
        requires
            x1 == 2 * (d1 - n1) * u + d1,
            x2 == 2 * (d2 - n2) * u + d2,
            n1 * d2 <= n2 * d1,
            u >= 0,
    ;
    lemma_quotient_order(x1, 2 * d1, x2, 2 * d2);
}

/// The thresholds of numerals: the full rate has threshold 0, the rate
/// zero has the largest, and every rate has one that fits 32 bits.
pub proof fn lemma_int_rate_endpoints(rate: Seq<char>)
    requires
        in_range(rate),
    ensures
        0 <= int_rate_of(rate) <= u32::MAX,
        is_full(rate) ==> int_rate_of(rate) == 0,
        numerator(rate) == 0 ==> int_rate_of(rate) == u32::MAX,
{
    lemma_pow10_positive(fraction_part(rate).len());
    lemma_threshold_endpoints(denominator(rate));
    lemma_threshold_by_division(numerator(rate), denominator(rate));
}

/// The threshold is monotonically non-increasing as the rate increases.
pub proof fn lemma_int_rate_monotone(lower: Seq<char>, higher: Seq<char>)
    requires
        in_range(lower),
        in_range(higher),
        numerator(lower) * denominator(higher) <= numerator(higher) * denominator(lower),
    ensures
        int_rate_of(lower) >= int_rate_of(higher),
{
    lemma_pow10_positive(fraction_part(lower).len());
    lemma_pow10_positive(fraction_part(higher).len());
    lemma_threshold_monotone(
        numerator(lower),
        denominator(lower),
        numerator(higher),
        denominator(higher),
    );
}

} // verus!
