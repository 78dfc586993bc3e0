//! The text of one metric as it goes on the wire:
//! `<prefix><key>:<value><unit><rate annotation>`, one metric per packet.
use vstd::prelude::*;
use vstd::string::StringExecFns;

verus! {

/// Use a safe maximum size for UDP to prevent fragmentation.
pub const MAX_UDP_PAYLOAD: usize = 576;

/// The three kinds of metric, each with a unit tag of its own.
#[derive(Clone, Copy, Debug, PartialEq, Eq, Structural)]
pub enum MetricKind {
    /// A cumulative count of items.
    Count,
    /// An instantaneous value, not a delta.
    Gauge,
    /// A duration in milliseconds.
    Time,
}

/// The unit tag of a kind: `|c`, `|g` or `|ms`.
pub open spec fn unit_tag(kind: MetricKind) -> Seq<char> {
    match kind {
        MetricKind::Count => seq!['|', 'c'],
        MetricKind::Gauge => seq!['|', 'g'],
        MetricKind::Time => seq!['|', 'm', 's'],
    }
}

/// The character that stands for a digit below ten.
pub open spec fn digit_char(digit: nat) -> char {
    if digit == 0 {
        '0'
    } else if digit == 1 {
        '1'
    } else if digit == 2 {
        '2'
    } else if digit == 3 {
        '3'
    } else if digit == 4 {
        '4'
    } else if digit == 5 {
        '5'
    } else if digit == 6 {
        '6'
    } else if digit == 7 {
        '7'
    } else if digit == 8 {
        '8'
    } else {
        '9'
    }
}

/// A number in decimal, most significant digit first, without leading zeros.
pub open spec fn decimal_text(value: nat) -> Seq<char>
    decreases value,
{
    if value < 10 {
        seq![digit_char(value)]
    } else {
        decimal_text(value / 10).push(digit_char(value % 10))
    }
}

/// The payload of one metric: prefix, key, a colon, the value in decimal,
/// and the suffix that holds the unit tag and the rate annotation.
pub open spec fn payload_text(
    prefix: Seq<char>,
    key: Seq<char>,
    value: nat,
    suffix: Seq<char>,
) -> Seq<char> {
    prefix + key + seq![':'] + decimal_text(value) + suffix
}

/// A decimal number has between one and twenty digits when it fits 64 bits.
pub proof fn lemma_decimal_text_len(value: nat)
    ensures
        1 <= decimal_text(value).len(),
        value <= u64::MAX ==> decimal_text(value).len() <= 20,
{
    reveal_with_fuel(decimal_text, 21);
}

/// The length of a payload is the sum of the lengths of its parts, of which
/// the value takes twenty characters at most: a payload stays within the
/// packet budget when prefix, key and suffix leave 21 characters of it.
pub proof fn lemma_payload_text_len(
    prefix: Seq<char>,
    key: Seq<char>,
    value: u64,
    suffix: Seq<char>,
)
    ensures
        payload_text(prefix, key, value as nat, suffix).len() == prefix.len() + key.len() + 1
            + decimal_text(value as nat).len() + suffix.len(),
        prefix.len() + key.len() + suffix.len() + 21 <= MAX_UDP_PAYLOAD ==> payload_text(
            prefix,
            key,
            value as nat,
            suffix,
        ).len() <= MAX_UDP_PAYLOAD,
{
    lemma_decimal_text_len(value as nat);
}

/// The one-character text of a digit.
fn digit_str(digit: u64) -> (text: &'static str)
    requires
        digit < 10,
    ensures
        text@ == seq![digit_char(digit as nat)],
{
    proof {
        reveal_strlit("0");
        reveal_strlit("1");
        reveal_strlit("2");
        reveal_strlit("3");
        reveal_strlit("4");
        reveal_strlit("5");
        reveal_strlit("6");
        reveal_strlit("7");
        reveal_strlit("8");
        reveal_strlit("9");
    }
    let text = if digit == 0 {
        "0"
    } else if digit == 1 {
        "1"
    } else if digit == 2 {
        "2"
    } else if digit == 3 {
        "3"
    } else if digit == 4 {
        "4"
    } else if digit == 5 {
        "5"
    } else if digit == 6 {
        "6"
    } else if digit == 7 {
        "7"
    } else if digit == 8 {
        "8"
    } else {
        "9"
    };
    assert(text@ =~= seq![digit_char(digit as nat)]);
    text
}

/// Appends `value` in decimal to `buffer`.
pub fn push_decimal(buffer: &mut String, value: u64)
    ensures
        final(buffer)@ == old(buffer)@ + decimal_text(value as nat),
    decreases value,
{
    if value >= 10 {
        push_decimal(buffer, value / 10);
    }
    buffer.append(digit_str(value % 10));
    assert(buffer@ =~= old(buffer)@ + decimal_text(value as nat));
}

/// Concatenates the parts of one metric into a single buffer.
pub fn render(prefix: &str, key: &str, value: u64, suffix: &str) -> (payload: String)
    ensures
        payload@ == payload_text(prefix@, key@, value as nat, suffix@),
{
    let mut payload = String::with_capacity(MAX_UDP_PAYLOAD);
    payload.append(prefix);
    payload.append(key);
    payload.append(":");
    push_decimal(&mut payload, value);
    payload.append(suffix);
    proof {
        reveal_strlit(":");
        assert(":"@ =~= seq![':']);
    }
    payload
}

/// `String::with_capacity` returns an empty string; the capacity only
/// reserves room and is not part of what the string holds.
pub assume_specification[ String::with_capacity ](capacity: usize) -> (text: String)
    ensures
        text@ == Seq::<char>::empty(),
;

} // verus!
