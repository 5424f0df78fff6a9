use fits_header::{format_datetime, parse_datetime};

#[test]
fn date_only_is_midnight() {
    let dt = parse_datetime("2026-07-11").unwrap();
    assert_eq!(
        (dt.hour, dt.minute, dt.second, dt.nanosecond),
        (0, 0, 0, 0)
    );
    assert_eq!(format_datetime(&dt), "2026-07-11T00:00:00");
}

#[test]
fn seconds_and_fraction_are_optional() {
    assert_eq!(
        format_datetime(&parse_datetime("2026-07-11T22:15").unwrap()),
        "2026-07-11T22:15:00"
    );
    let dt = parse_datetime("2026-07-11T22:15:03.25").unwrap();
    assert_eq!(dt.nanosecond, 250_000_000);
    assert_eq!(format_datetime(&dt), "2026-07-11T22:15:03.25");
}

#[test]
fn fraction_beyond_nanoseconds_is_truncated() {
    let dt = parse_datetime("2026-07-11T00:00:00.1234567891234").unwrap();
    assert_eq!(dt.nanosecond, 123_456_789);
}

#[test]
fn quoted_input_is_tolerated() {
    assert!(parse_datetime("'2026-07-11T01:02:03'").is_some());
    assert!(parse_datetime("  2026-07-11  ").is_some());
}

#[test]
fn trailing_z_designator_is_tolerated() {
    assert_eq!(
        parse_datetime("2026-07-11T22:15:03.25Z").unwrap(),
        parse_datetime("2026-07-11T22:15:03.25").unwrap()
    );
    assert_eq!(
        format_datetime(&parse_datetime("2026-07-11T22:15:03Z").unwrap()),
        "2026-07-11T22:15:03"
    );
}

#[test]
fn invalid_forms_are_none() {
    for bad in [
        "2026-13-01",
        "2026-02-30",
        "2026-07-11T25:00:00",
        "2026-07-11-05",
        "2026-07-11T1:2:3:4",
        "2026",
        "not a date",
    ] {
        assert!(parse_datetime(bad).is_none(), "{bad:?} should not parse");
    }
}

#[test]
fn format_trims_trailing_fraction_zeros() {
    let dt = parse_datetime("2026-07-11T00:00:00.100").unwrap();
    assert_eq!(format_datetime(&dt), "2026-07-11T00:00:00.1");
    let dt = parse_datetime("2026-07-11T00:00:00.000").unwrap();
    assert_eq!(format_datetime(&dt), "2026-07-11T00:00:00");
}

#[test]
fn parsed_fields_come_out_one_for_one() {
    let dt = parse_datetime("1999-12-31T23:59:58.000000007").unwrap();
    assert_eq!(
        (dt.year, dt.month, dt.day, dt.hour, dt.minute, dt.second, dt.nanosecond),
        (1999, 12, 31, 23, 59, 58, 7)
    );
}

#[test]
fn format_pads_every_field() {
    let dt = fits_header::DateTime {
        year: 7,
        month: 1,
        day: 2,
        hour: 3,
        minute: 4,
        second: 5,
        nanosecond: 60,
    };
    assert_eq!(format_datetime(&dt), "0007-01-02T03:04:05.00000006");
    let neg = fits_header::DateTime { year: -5, ..dt };
    assert_eq!(format_datetime(&neg), "-005-01-02T03:04:05.00000006");
}
