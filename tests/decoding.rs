use datavalue::date::parse_date;
use datavalue::decode::parse_number;
use datavalue::value::{Date, DateParts, Number};

#[test]
fn number_integer() {
    assert!(matches!(parse_number("123"), Ok(Number::Int(123))));
    assert!(matches!(parse_number("-42"), Ok(Number::Int(-42))));
    assert!(matches!(parse_number("0"), Ok(Number::Int(0))));
}

#[test]
fn number_float() {
    match parse_number("123.5") {
        Ok(Number::Float(d)) => {
            assert_eq!(d.whole, 123);
            assert_eq!(d.fraction, vec![5]);
        }
        _ => panic!("expected a float"),
    }
}

#[test]
fn number_negative_float_drops_sign() {
    match parse_number("-1.25") {
        Ok(Number::Float(d)) => {
            assert_eq!(d.whole, 1);
            assert_eq!(d.fraction, vec![2, 5]);
        }
        _ => panic!("expected a float"),
    }
}

#[test]
fn number_sentinels() {
    assert!(matches!(parse_number("Infinity"), Ok(Number::PositiveInfinity)));
    assert!(matches!(parse_number("-Infinity"), Ok(Number::NegativeInfinity)));
    assert!(matches!(parse_number("NaN"), Ok(Number::NaN)));
}

#[test]
fn number_rejects_non_digits() {
    assert!(parse_number("12a").is_err());
    assert!(parse_number("1.2.3").is_err());
    assert!(parse_number("nan").is_err());
}

#[test]
fn number_needs_a_digit() {
    assert!(parse_number("").is_err());
    assert!(parse_number("-").is_err());
    assert!(parse_number(".5").is_err());
    assert!(parse_number("-.5").is_err());
    assert!(matches!(parse_number("12."), Ok(Number::Float(_))));
}

#[test]
fn number_too_large_is_rejected() {
    assert!(matches!(parse_number("9223372036854775807"), Ok(Number::Int(i64::MAX))));
    assert!(parse_number("9223372036854775808").is_err());
}

fn parts(nano: u32) -> DateParts {
    DateParts { year: 2024, month: 8, day: 25, hour: 12, minute: 15, second: 28, nano }
}

#[test]
fn date_with_offset() {
    match parse_date("2024-08-25T12:15:28.999+10:00") {
        Ok(Date::DateTimeOffset(p, off)) => {
            assert!(p == parts(999_000_000));
            assert_eq!(off, 600 * 60);
        }
        _ => panic!("expected an offset date"),
    }
}

#[test]
fn date_utc() {
    match parse_date("2024-08-25T12:15:28.000Z") {
        Ok(Date::DateTimeUtc(p)) => assert!(p == parts(0)),
        _ => panic!("expected a UTC date"),
    }
}

#[test]
fn date_negative_hours_only_offset() {
    match parse_date("2024-08-25T12:15:28-05") {
        Ok(Date::DateTimeOffset(p, off)) => {
            assert!(p == parts(0));
            assert_eq!(off, -5 * 3600);
        }
        _ => panic!("expected an offset date"),
    }
}

#[test]
fn date_zero_offset_is_utc() {
    assert!(matches!(parse_date("2024-08-25T12:15:28+00:00"), Ok(Date::DateTimeUtc(_))));
}

#[test]
fn date_fraction_scaled_to_nanos() {
    match parse_date("2024-08-25T12:15:28.5Z") {
        Ok(Date::DateTimeUtc(p)) => assert_eq!(p.nano, 500_000_000),
        _ => panic!("expected a UTC date"),
    }
    match parse_date("2024-08-25T12:15:28.123456789Z") {
        Ok(Date::DateTimeUtc(p)) => assert_eq!(p.nano, 123_456_789),
        _ => panic!("expected a UTC date"),
    }
}

#[test]
fn date_rejects_malformed() {
    assert!(parse_date("2024-08-25").is_err());
    assert!(parse_date("2024-08-25T12:15:28").is_err());
    assert!(parse_date("2024-08-25T12:15:28Zx").is_err());
    assert!(parse_date("2024/08/25T12:15:28Z").is_err());
    assert!(parse_date("2024-08-25T12:15:28.1234567890Z").is_err());
}

#[test]
fn date_rejects_impossible_calendar_values() {
    assert!(parse_date("2024-13-25T12:15:28Z").is_err());
    assert!(parse_date("2023-02-29T12:15:28Z").is_err());
    assert!(parse_date("2024-02-29T12:15:28Z").is_ok());
    assert!(parse_date("2024-08-25T24:00:00Z").is_err());
    assert!(parse_date("2024-08-25T12:15:28+24:00").is_err());
}

#[test]
fn number_nul_is_not_an_end() {
    assert!(parse_number("1\0x").is_err());
    assert!(parse_number("1\0").is_err());
    assert!(parse_number("1.5\0").is_err());
}

#[test]
fn date_nul_is_not_an_end() {
    assert!(parse_date("2024-08-25T12:15:28Z\0x").is_err());
    assert!(parse_date("2024-08-25T12:15:28.000Z\0").is_err());
    assert!(parse_date("2024-08-25T12:15:28+10\0x").is_err());
    assert!(parse_date("2024-08-25T12:15:28+10:00\0x").is_err());
    assert!(parse_date("2024-08-25T12:15:28.000+10:00x").is_err());
    assert!(parse_date("2024-08-25T12:15:28.000+10x").is_err());
}
