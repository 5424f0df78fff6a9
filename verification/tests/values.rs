use fits_header::{format_datetime, parse_datetime, parse_i64, DateTime, Header};

#[test]
fn lenient_numeric() {
    assert_eq!(parse_i64("20.0"), Some(20));
    assert_eq!(parse_i64("42"), Some(42));
    assert_eq!(parse_i64("-7"), Some(-7));
    assert_eq!(parse_i64("nope"), None);
}

#[test]
fn datetime_roundtrip() {
    for s in [
        "2026-07-11T22:15:03",
        "2026-07-11T22:15:03.5",
        "1999-12-31T23:59:59",
    ] {
        let dt = parse_datetime(s).unwrap();
        assert_eq!(format_datetime(&dt), s);
    }
}

#[test]
fn datetime_via_get() {
    let mut h = Header::new();
    h.set("DATE-OBS", "2026-07-11T22:15:03").unwrap();
    let dt: Option<DateTime> = h.get("DATE-OBS").unwrap();
    let dt = dt.expect("parses");
    assert_eq!(format_datetime(&dt), "2026-07-11T22:15:03");
}

#[test]
fn fixed_and_sci_and_default_float() {
    let mut h = Header::new();
    h.set("D", 42_i64).unwrap();
    assert_eq!(h.get::<String>("D").unwrap().as_deref(), Some("42"));
}

#[test]
fn lenient_forms_read_exactly() {
    assert_eq!(parse_i64("  +20  "), Some(20));
    assert_eq!(parse_i64("1.5D3"), Some(1500));
    assert_eq!(parse_i64("1.5d3"), Some(1500));
    assert_eq!(parse_i64("2.0E1"), Some(20));
    assert_eq!(parse_i64("200D-1"), Some(20));
    assert_eq!(parse_i64("200e-2"), Some(2));
    assert_eq!(parse_i64("-0.0"), Some(0));
    assert_eq!(parse_i64("0e999999999999999999999999999999"), Some(0));
    assert_eq!(parse_i64("5."), Some(5));
    assert_eq!(parse_i64(".5"), None);
    assert_eq!(parse_i64("1e-999999999999999999999999999999"), None);
    assert_eq!(parse_i64("1e999999999999999999999999999999"), None);
    assert_eq!(parse_i64("9223372036854775807"), Some(i64::MAX));
    assert_eq!(parse_i64("-9223372036854775808"), Some(i64::MIN));
    assert_eq!(parse_i64("9223372036854775808"), None);
    assert_eq!(parse_i64("00000000000000000000000000042.000"), Some(42));
    assert_eq!(parse_i64("1e"), None);
    assert_eq!(parse_i64("+-1"), None);
    assert_eq!(parse_i64("."), None);
    assert_eq!(parse_i64(""), None);
    assert_eq!(parse_i64("1 2"), None);
}

#[test]
fn integers_of_every_width_round_trip() {
    let mut h = Header::new();
    h.set("A", i64::MIN).unwrap();
    h.set("B", u64::MAX).unwrap();
    h.set("C", -128i8).unwrap();
    h.set("D", usize::MAX).unwrap();
    h.set("E", 0u16).unwrap();
    assert_eq!(h.get::<i64>("A").unwrap(), Some(i64::MIN));
    assert_eq!(h.get::<u64>("B").unwrap(), Some(u64::MAX));
    assert_eq!(h.get::<i64>("B").unwrap(), None);
    assert_eq!(h.get::<i8>("C").unwrap(), Some(-128));
    assert_eq!(h.get_str("A").unwrap(), None);
    assert_eq!(h.get::<String>("A").unwrap().as_deref(), Some("-9223372036854775808"));
    assert_eq!(h.get::<String>("E").unwrap().as_deref(), Some("0"));
    assert_eq!(h.get::<u32>("E").unwrap(), Some(0));
}
