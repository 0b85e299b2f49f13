//! Checks of the free-form value parser, including the calendar-date and URL
//! judgments that chrono and url make.

use sequel::parse::{parse_int, parse_into_field_value};
use sequel::value::FieldValue;

#[test]
fn booleans_parse_in_any_ascii_case() {
    assert_eq!(parse_into_field_value(&"true".to_string()), FieldValue::Boolean(true));
    assert_eq!(parse_into_field_value(&"FALSE".to_string()), FieldValue::Boolean(false));
    assert_eq!(parse_into_field_value(&"TrUe".to_string()), FieldValue::Boolean(true));
}

#[test]
fn integers_parse_exactly() {
    assert_eq!(parse_int("0"), Some(0));
    assert_eq!(parse_int("-42"), Some(-42));
    assert_eq!(parse_int("123456789012345678"), Some(123456789012345678));
    assert_eq!(parse_int(""), None);
    assert_eq!(parse_int("-"), None);
    assert_eq!(parse_int("12a"), None);
    // literals are capped at eighteen digits
    assert_eq!(parse_int("1234567890123456789"), None);
    assert_eq!(parse_into_field_value(&"-7".to_string()), FieldValue::Number(-7));
}

#[test]
fn dates_parse_to_their_utc_midnight_timestamp() {
    // 2024-01-15 00:00:00 UTC
    assert_eq!(
        parse_into_field_value(&"2024-01-15".to_string()),
        FieldValue::Date(1705276800)
    );
    // the epoch itself
    assert_eq!(parse_into_field_value(&"1970-01-01".to_string()), FieldValue::Date(0));
    // the thirteenth month is not a date, and falls through to a string
    assert_eq!(
        parse_into_field_value(&"2024-13-01".to_string()),
        FieldValue::String("2024-13-01".to_string())
    );
}

#[test]
fn urls_parse_normalized() {
    // the url crate adds the trailing slash: the parsed value is not the
    // input text handed back
    assert_eq!(
        parse_into_field_value(&"https://example.com".to_string()),
        FieldValue::Url("https://example.com/".to_string())
    );
    // a relative reference is no absolute URL and stays a string
    assert_eq!(
        parse_into_field_value(&"just words".to_string()),
        FieldValue::String("just words".to_string())
    );
}
