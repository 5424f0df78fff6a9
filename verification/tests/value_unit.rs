use fits_header::{parse_i64, DateTime, FromCard, IntoValue, Literal, Record, Value};

fn literal(token: &str) -> Record {
    Record::value("K", Value::Literal(token.to_string()), None)
}

#[test]
fn parse_i64_is_lenient_but_rejects_fractions() {
    assert_eq!(parse_i64("20.0"), Some(20));
    assert_eq!(parse_i64("20.5"), None);
    assert_eq!(parse_i64("1e3"), Some(1000));
    assert_eq!(parse_i64("170141183460469231731687303715884105727"), None);
    assert_eq!(parse_i64("inf"), None);
}

#[test]
fn int_narrowing_fails_closed() {
    assert_eq!(u8::from_card(&literal("300")), None);
    assert_eq!(u8::from_card(&literal("255")), Some(255));
    assert_eq!(u32::from_card(&literal("-1")), None);
    assert_eq!(i16::from_card(&literal("-32768")), Some(-32768));
}

#[test]
fn bool_from_card_variants() {
    assert_eq!(bool::from_card(&literal("T")), Some(true));
    assert_eq!(bool::from_card(&literal("1")), Some(true));
    assert_eq!(bool::from_card(&literal("F")), Some(false));
    assert_eq!(bool::from_card(&literal("0")), Some(false));
    assert_eq!(bool::from_card(&literal("yes")), None);
}

#[test]
fn string_from_card_reads_literal_token() {
    assert_eq!(String::from_card(&literal("120.0")).as_deref(), Some("120.0"));
    let empty = Record::value("K", Value::Str(String::new()), None);
    assert_eq!(String::from_card(&empty), None);
}

#[test]
fn into_value_wrappers() {
    assert_eq!(true.into_value(), Value::Literal("T".to_string()));
    assert_eq!(false.into_value(), Value::Literal("F".to_string()));
    assert_eq!(Literal("007").into_value(), Value::Literal("007".to_string()));
    assert_eq!("s".into_value(), Value::Str("s".to_string()));
    assert_eq!((&"s".to_string()).into_value(), Value::Str("s".to_string()));
    assert_eq!(42u8.into_value(), Value::Literal("42".to_string()));
    assert_eq!((-3isize).into_value(), Value::Literal("-3".to_string()));
}

#[test]
fn datetime_from_card() {
    let r = Record::value("K", Value::Str("2026-07-11T22:15:03".to_string()), None);
    let dt = DateTime::from_card(&r).unwrap();
    assert_eq!(fits_header::format_datetime(&dt), "2026-07-11T22:15:03");
    assert_eq!(DateTime::from_card(&literal("nope")), None);
}
