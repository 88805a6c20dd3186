//! Behavioural tests of the duration codec: parsing, formatting, round
//! trips, and the millisecond interchange conversions.

use duration_codec::ConfigValue;
use duration_codec::ParseError;
use duration_codec::ReadableDuration;
use duration_codec::duration_to_ms;
use duration_codec::duration_to_nanos;

fn parse_ms(s: &str) -> u64 {
    ReadableDuration::from_str(s).unwrap().as_millis()
}

#[test]
fn order_violation_rejected() {
    assert_eq!(
        ReadableDuration::from_str("1m2h"),
        Err(ParseError::UnitOrderViolation)
    );
}

#[test]
fn descending_units_accepted() {
    assert_eq!(parse_ms("1h2m"), 3_720_000);
}

#[test]
fn duplicate_unit_rejected() {
    assert_eq!(
        ReadableDuration::from_str("1h2h"),
        Err(ParseError::UnitOrderViolation)
    );
}

#[test]
fn ms_takes_precedence_over_m() {
    assert_eq!(parse_ms("500ms"), 500);
}

#[test]
fn zero_formats_as_zero_seconds() {
    assert_eq!(ReadableDuration::millis(0).format_str().as_str(), "0s");
}

#[test]
fn zero_seconds_parses_to_zero() {
    let d = ReadableDuration::from_str("0s").unwrap();
    assert!(d.is_zero());
    assert_eq!(d, ReadableDuration::millis(0));
}

#[test]
fn negative_duration_rejected() {
    assert_eq!(
        ReadableDuration::from_str("-5s"),
        Err(ParseError::NegativeDuration)
    );
}

#[test]
fn trailing_garbage_rejected() {
    assert_eq!(
        ReadableDuration::from_str("10s!"),
        Err(ParseError::InvalidEncoding)
    );
}

#[test]
fn all_units_example() {
    let d = ReadableDuration::from_str("1d2h3m4s5ms").unwrap();
    assert_eq!(d.as_millis(), 93_784_005);
    assert_eq!(d.format_str().as_str(), "1d2h3m4s5ms");
}

#[test]
fn round_trip_whole_milliseconds() {
    for ms in [
        0u64,
        1,
        999,
        1000,
        1500,
        59_999,
        60_000,
        3_600_000,
        86_400_000,
        93_784_005,
        18_446_744_073_709_551,
        u64::MAX,
    ] {
        let d = ReadableDuration::millis(ms);
        let text = d.format_str();
        let back = ReadableDuration::from_str(&text).unwrap();
        assert_eq!(back, d);
    }
}

#[test]
fn format_skips_zero_units() {
    assert_eq!(
        ReadableDuration::millis(86_460_000).format_str().as_str(),
        "1d1m"
    );
    assert_eq!(
        ReadableDuration::millis(90_061_001).format_str().as_str(),
        "1d1h1m1s1ms"
    );
    assert_eq!(
        ReadableDuration::millis(172_800_000).format_str().as_str(),
        "2d"
    );
}

#[test]
fn interchange_truncates_sub_millisecond() {
    // half a millisecond past one second, built directly on the fields
    let d = ReadableDuration {
        secs: 1,
        nanos: 500_000,
    };
    let v = d.to_config_value();
    assert_eq!(v, ConfigValue::Duration(1000));
    let back: ReadableDuration = ReadableDuration::from(v);
    assert_eq!(back, ReadableDuration::millis(1000));
    assert_eq!(back.nanos % 1_000_000, 0);
}

#[test]
fn empty_and_blank_parse_to_zero() {
    assert_eq!(parse_ms(""), 0);
    assert_eq!(parse_ms("   "), 0);
}

#[test]
fn surrounding_whitespace_ignored() {
    assert_eq!(parse_ms(" 1h 30m "), 5_400_000);
}

#[test]
fn fractional_segments() {
    assert_eq!(parse_ms("1.5h"), 5_400_000);
    assert_eq!(parse_ms(".5s"), 500);
    assert_eq!(parse_ms("1.s"), 1000);
    assert_eq!(parse_ms("0.5ms"), 0);
}

#[test]
fn plus_sign_accepted() {
    assert_eq!(parse_ms("+5s"), 5000);
}

#[test]
fn mixed_signs_accepted_when_total_non_negative() {
    assert_eq!(parse_ms("5s-499ms"), 4501);
}

#[test]
fn arithmetically_large_minutes_accepted() {
    assert_eq!(parse_ms("12h360m"), 64_800_000);
}

#[test]
fn missing_number_rejected() {
    assert_eq!(
        ReadableDuration::from_str("h"),
        Err(ParseError::InvalidEncoding)
    );
    assert_eq!(
        ReadableDuration::from_str("1h m"),
        Err(ParseError::InvalidEncoding)
    );
}

#[test]
fn malformed_numbers_rejected() {
    assert_eq!(
        ReadableDuration::from_str("1x2h"),
        Err(ParseError::InvalidEncoding)
    );
    assert_eq!(
        ReadableDuration::from_str("1..5s"),
        Err(ParseError::InvalidEncoding)
    );
    assert_eq!(
        ReadableDuration::from_str("1e3s"),
        Err(ParseError::InvalidEncoding)
    );
    assert_eq!(
        ReadableDuration::from_str("."),
        Err(ParseError::InvalidEncoding)
    );
    assert_eq!(
        ReadableDuration::from_str(".s"),
        Err(ParseError::InvalidEncoding)
    );
}

#[test]
fn non_ascii_rejected() {
    assert_eq!(
        ReadableDuration::from_str("é1h"),
        Err(ParseError::InvalidEncoding)
    );
}

#[test]
fn out_of_range_rejected() {
    // integer part reaches the 10^19 literal cap
    assert_eq!(
        ReadableDuration::from_str("99999999999999999999s"),
        Err(ParseError::InvalidEncoding)
    );
    // within the literal cap but the millisecond total overflows
    assert_eq!(
        ReadableDuration::from_str("9999999999999999999d"),
        Err(ParseError::InvalidEncoding)
    );
}

#[test]
fn constructors_and_getters() {
    assert_eq!(ReadableDuration::secs(7).as_secs(), 7);
    assert_eq!(ReadableDuration::secs(7).as_millis(), 7000);
    assert_eq!(ReadableDuration::millis(1500).as_secs(), 1);
    assert_eq!(ReadableDuration::minutes(2).as_millis(), 120_000);
    assert_eq!(ReadableDuration::hours(3).as_millis(), 10_800_000);
    assert_eq!(ReadableDuration::days(1).as_millis(), 86_400_000);
    assert!(ReadableDuration::millis(0).is_zero());
    assert!(!ReadableDuration::millis(1).is_zero());
}

#[test]
fn duration_conversions() {
    let d = ReadableDuration {
        secs: 2,
        nanos: 345_678_901,
    };
    assert_eq!(duration_to_ms(d), 2345);
    assert_eq!(duration_to_nanos(d), 2_345_678_901);
}

#[test]
fn config_value_text_and_messages() {
    assert_eq!(ConfigValue::Duration(1500).text().as_str(), "1500ms");
    assert_eq!(
        ParseError::InvalidEncoding.message(),
        "valid duration, only d, h, m, s, ms are supported"
    );
    assert_eq!(
        ParseError::UnitOrderViolation.message(),
        "d, h, m, s, ms should occur in given order"
    );
    assert_eq!(
        ParseError::NegativeDuration.message(),
        "duration should be positive"
    );
}
