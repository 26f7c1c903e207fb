use rrule::range::RangeParseError;
use rrule::{RangeOrValue, Unvalidated, Validated};

#[test]
fn test_range_from_str_single_value() {
    let value = "3".parse::<RangeOrValue<i32>>().unwrap();
    assert!(value.is_value());
    assert_eq!(value, RangeOrValue::Value(3));
}

#[test]
fn test_range_from_str_range() {
    let value = "3-5".parse::<RangeOrValue<i32>>().unwrap();
    assert!(value.is_range());
    assert_eq!(value, RangeOrValue::Range(3, 5));
}

#[test]
fn test_range_contains() {
    let value = "3-5".parse::<RangeOrValue<i32>>().unwrap();
    assert!(value.is_range());
    assert!(value.contains(&3));
    assert!(value.contains(&4));
    assert!(value.contains(&5));
    assert!(!value.contains(&2));
    assert!(!value.contains(&6));

    let value = "9".parse::<RangeOrValue<i32>>().unwrap();
    assert!(value.is_value());
    assert!(value.contains(&9));
    assert!(!value.contains(&2));
    assert!(!value.contains(&6));
}

#[test]
fn test_range_or_value_from_str_invalid_range() {
    assert_eq!(
        "9-2".parse::<RangeOrValue<i32>>(),
        Err("Invalid range: start value must be less than end value")
    );
}

#[test]
fn negative_scalar_is_a_value_not_a_range() {
    let value = "-5".parse::<RangeOrValue<i32>>().unwrap();
    assert!(value.is_value());
    assert!(!value.is_range());
    assert_eq!(value, RangeOrValue::Value(-5));
    assert!(value.contains(&-5));
    assert!(!value.contains(&5));
}

#[test]
fn plus_signed_scalar_is_a_value() {
    assert_eq!("+7".parse::<RangeOrValue<i32>>(), Ok(RangeOrValue::Value(7)));
}

#[test]
fn extreme_scalars_parse() {
    assert_eq!(
        "2147483647".parse::<RangeOrValue<i32>>(),
        Ok(RangeOrValue::Value(i32::MAX))
    );
    assert_eq!(
        "-2147483648".parse::<RangeOrValue<i32>>(),
        Ok(RangeOrValue::Value(i32::MIN))
    );
}

#[test]
fn scalar_too_large_is_a_format_error() {
    // Out of range for the scalar type, and without a separator the text
    // does not split into two parts either.
    assert_eq!(
        "2147483648".parse::<RangeOrValue<i32>>(),
        Err("Invalid range format")
    );
}

#[test]
fn more_than_one_separator_is_a_format_error() {
    assert_eq!("1-2-3".parse::<RangeOrValue<i32>>(), Err("Invalid range format"));
    assert_eq!("--5".parse::<RangeOrValue<i32>>(), Err("Invalid range format"));
    assert_eq!("3--5".parse::<RangeOrValue<i32>>(), Err("Invalid range format"));
}

#[test]
fn empty_or_separatorless_text_is_a_format_error() {
    assert_eq!("".parse::<RangeOrValue<i32>>(), Err("Invalid range format"));
    assert_eq!("abc".parse::<RangeOrValue<i32>>(), Err("Invalid range format"));
    assert_eq!("3,5".parse::<RangeOrValue<i32>>(), Err("Invalid range format"));
}

#[test]
fn empty_part_is_a_format_error() {
    // The split must yield two non-empty parts.
    assert_eq!("3-".parse::<RangeOrValue<i32>>(), Err("Invalid range format"));
}

#[test]
fn bad_start_part_is_a_start_error() {
    assert_eq!(
        "x-5".parse::<RangeOrValue<i32>>(),
        Err("Invalid range start value")
    );
}

#[test]
fn bad_end_part_is_an_end_error() {
    assert_eq!(
        "3-x".parse::<RangeOrValue<i32>>(),
        Err("Invalid range end value")
    );
}

#[test]
fn degenerate_range_is_an_order_error() {
    // A range whose bounds coincide must be written as a single value.
    assert_eq!(
        "3-3".parse::<RangeOrValue<i32>>(),
        Err("Invalid range: start value must be less than end value")
    );
}

#[test]
fn parse_reports_conditions_as_variants() {
    assert_eq!(
        RangeOrValue::parse("1-2-3"),
        Err(RangeParseError::InvalidRangeFormat)
    );
    assert_eq!(
        RangeOrValue::parse("x-5"),
        Err(RangeParseError::InvalidRangeStart)
    );
    assert_eq!(
        RangeOrValue::parse("3-x"),
        Err(RangeParseError::InvalidRangeEnd)
    );
    assert_eq!(
        RangeOrValue::parse("9-2"),
        Err(RangeParseError::InvalidRangeOrder)
    );
    assert_eq!(RangeOrValue::parse("3-5"), Ok(RangeOrValue::Range(3, 5)));
    assert_eq!(RangeOrValue::parse("-17"), Ok(RangeOrValue::Value(-17)));
}

#[test]
fn contains_matches_inclusive_bounds() {
    let range = RangeOrValue::Range(-2, 2);
    for c in -4..5 {
        assert_eq!(range.contains(&c), -2 <= c && c <= 2);
    }
    let value = RangeOrValue::Value(0);
    for c in -4..5 {
        assert_eq!(value.contains(&c), c == 0);
    }
}

#[test]
fn equality_is_reflexive_symmetric_and_variant_distinct() {
    let range = RangeOrValue::Range(3, 5);
    let value = RangeOrValue::Value(3);
    assert_eq!(range, RangeOrValue::Range(3, 5));
    assert_eq!(value, RangeOrValue::Value(3));
    assert_ne!(range, RangeOrValue::Range(3, 6));
    assert_ne!(value, RangeOrValue::Value(4));
    // A range never equals a value, whatever the contents.
    assert_ne!(RangeOrValue::Range(3, 3), RangeOrValue::Value(3));
    assert_ne!(RangeOrValue::Value(3), RangeOrValue::Range(3, 3));
}

fn takes_validated(tag: Validated) -> Validated {
    tag
}

#[test]
fn marker_tags_are_distinct_unit_values() {
    // The two markers are zero-sized, copyable and ordered; a function whose
    // parameter is `Validated` accepts only that tag (passing `Unvalidated`
    // is a compile-time type error).
    let v = Validated;
    let u = Unvalidated;
    assert_eq!(v, takes_validated(v));
    assert_eq!(u, Unvalidated);
    assert!(Validated <= Validated);
    assert!(Unvalidated <= Unvalidated);
}
