use statsd_client::rate::{parse, to_int_rate, RateError, SamplingRate, FULL_SAMPLING_RATE};

#[test]
fn full_rate_has_threshold_zero() {
    assert_eq!(to_int_rate("1"), Ok(0));
    assert_eq!(to_int_rate(FULL_SAMPLING_RATE), Ok(0));
    assert_eq!(to_int_rate("1.0"), Ok(0));
    assert_eq!(to_int_rate("1.000"), Ok(0));
    assert_eq!(to_int_rate("01"), Ok(0));
}

#[test]
fn zero_rate_has_largest_threshold() {
    assert_eq!(to_int_rate("0"), Ok(u32::MAX));
    assert_eq!(to_int_rate("0.0"), Ok(u32::MAX));
    assert_eq!(to_int_rate("0.000000"), Ok(u32::MAX));
    assert_eq!(to_int_rate("-0"), Ok(u32::MAX));
    assert_eq!(to_int_rate("-0.00"), Ok(u32::MAX));
}

#[test]
fn thresholds_are_rounded_to_nearest() {
    assert_eq!(to_int_rate("0.999"), Ok(4294967));
    assert_eq!(to_int_rate("0.99"), Ok(42949673));
    assert_eq!(to_int_rate("0.01"), Ok(4252017622));
    assert_eq!(to_int_rate("0.1"), Ok(3865470566));
    assert_eq!(to_int_rate("0.001"), Ok(4290672328));
    assert_eq!(to_int_rate("0.25"), Ok(3221225471));
    assert_eq!(to_int_rate("0.75"), Ok(1073741824));
    assert_eq!(to_int_rate("0.3333333333"), Ok(2863311530));
}

#[test]
fn a_half_is_rounded_upward() {
    // (1 - 0.5) * u32::MAX is 2147483647.5
    assert_eq!(to_int_rate("0.5"), Ok(2147483648));
    assert_eq!(to_int_rate("0.50"), Ok(2147483648));
}

#[test]
fn rates_close_to_the_ends() {
    assert_eq!(to_int_rate("0.9999999999"), Ok(0));
    assert_eq!(to_int_rate("0.9999999998"), Ok(1));
    assert_eq!(to_int_rate("0.99999999988358467"), Ok(1));
    assert_eq!(to_int_rate("0.00000000011641532"), Ok(u32::MAX));
    assert_eq!(to_int_rate("0.0000000002"), Ok(u32::MAX - 1));
}

#[test]
fn fractions_of_any_length_are_read() {
    let tiny = format!("0.{}1", "0".repeat(400));
    assert_eq!(to_int_rate(&tiny), Ok(u32::MAX));
    let nearly_one = format!("0.{}", "9".repeat(400));
    assert_eq!(to_int_rate(&nearly_one), Ok(0));
    let half = format!("0.5{}", "0".repeat(400));
    assert_eq!(to_int_rate(&half), Ok(2147483648));
    let above_half = format!("0.5{}1", "0".repeat(400));
    assert_eq!(to_int_rate(&above_half), Ok(2147483647));
    let one = format!("1.{}", "0".repeat(400));
    assert_eq!(to_int_rate(&one), Ok(0));
}

#[test]
fn only_rate_one_is_full() {
    assert_eq!(parse("1"), Ok(SamplingRate { int_rate: 0, full: true }));
    assert_eq!(parse("1.00"), Ok(SamplingRate { int_rate: 0, full: true }));
    // Rounds to threshold 0 and is still below 1.
    assert_eq!(parse("0.9999999999"), Ok(SamplingRate { int_rate: 0, full: false }));
    assert_eq!(parse("0.999"), Ok(SamplingRate { int_rate: 4294967, full: false }));
    assert_eq!(parse("0"), Ok(SamplingRate { int_rate: u32::MAX, full: false }));
}

#[test]
fn rates_outside_the_interval_are_refused() {
    assert_eq!(to_int_rate("-0.0001"), Err(RateError::OutOfRange));
    assert_eq!(to_int_rate("1.0001"), Err(RateError::OutOfRange));
    assert_eq!(to_int_rate("2"), Err(RateError::OutOfRange));
    assert_eq!(to_int_rate("10"), Err(RateError::OutOfRange));
    assert_eq!(to_int_rate("-1"), Err(RateError::OutOfRange));
    assert_eq!(to_int_rate("1.5"), Err(RateError::OutOfRange));
    assert_eq!(to_int_rate("100000000000000000000000000000"), Err(RateError::OutOfRange));
    let just_above = format!("1.{}1", "0".repeat(300));
    assert_eq!(to_int_rate(&just_above), Err(RateError::OutOfRange));
    let just_below_zero = format!("-0.{}1", "0".repeat(300));
    assert_eq!(to_int_rate(&just_below_zero), Err(RateError::OutOfRange));
}

#[test]
fn boundary_rates_written_from_floats_are_refused() {
    let below: f64 = -0.0001;
    let above: f64 = 1.0001;
    assert_eq!(to_int_rate(&format!("{}", below)), Err(RateError::OutOfRange));
    assert_eq!(to_int_rate(&format!("{}", above)), Err(RateError::OutOfRange));
}

#[test]
fn texts_that_are_no_numerals_are_refused() {
    for text in [
        "", "-", ".", ".5", "1.", "-.5", "0..5", "0.5.", "0.5x", "x", "+1", "1e-3", "NaN", "inf",
        "-inf", " 1", "1 ", "0,5", "--0", "0.-5", "\u{661}",
    ] {
        assert_eq!(to_int_rate(text), Err(RateError::Malformed), "{:?}", text);
    }
}

#[test]
fn floats_that_are_no_numbers_are_refused() {
    assert_eq!(to_int_rate(&format!("{}", f64::NAN)), Err(RateError::Malformed));
    assert_eq!(to_int_rate(&format!("{}", f64::INFINITY)), Err(RateError::Malformed));
    assert_eq!(to_int_rate(&format!("{}", f64::NEG_INFINITY)), Err(RateError::Malformed));
}

#[test]
fn threshold_does_not_increase_with_the_rate() {
    let mut previous = u32::MAX;
    for step in 0..=10_000u32 {
        let rate = format!("{}.{:04}", step / 10_000, step % 10_000);
        let int_rate = to_int_rate(&rate).unwrap();
        assert!(int_rate <= previous, "{}", rate);
        previous = int_rate;
    }
    assert_eq!(previous, 0);
}

#[test]
fn threshold_follows_the_float_formula() {
    for step in 0..=1000u32 {
        let rate = step as f64 / 1000.0;
        let expected = ((1.0 - rate) * u32::MAX as f64).round();
        let int_rate = to_int_rate(&format!("{}", rate)).unwrap();
        assert!((int_rate as f64 - expected).abs() <= 1.0, "{}", rate);
    }
}
