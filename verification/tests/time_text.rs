use yaromchecker::time::{civil_from_days, format_timestamp};

#[test]
fn epoch_and_known_dates() {
    assert_eq!(civil_from_days(0), (1970, 1, 1));
    assert_eq!(civil_from_days(31), (1970, 2, 1));
    assert_eq!(civil_from_days(59), (1970, 3, 1));
    assert_eq!(civil_from_days(10957), (2000, 1, 1));
    assert_eq!(civil_from_days(11016), (2000, 2, 29));
    assert_eq!(civil_from_days(-1), (1969, 12, 31));
    assert_eq!(civil_from_days(-719468), (0, 3, 1));
}

#[test]
fn timestamps_format_as_utc() {
    assert_eq!(format_timestamp(0, "unknown"), "unknown");
    assert_eq!(format_timestamp(-5, "?"), "?");
    assert_eq!(
        format_timestamp(1_000_000_000, "unknown"),
        "1970-01-01 00:00:01 UTC"
    );
    assert_eq!(
        format_timestamp(951_782_400_000_000_000 + 3_723_000_000_000, "unknown"),
        "2000-02-29 01:02:03 UTC"
    );
    assert_eq!(
        format_timestamp(i64::MAX, "unknown"),
        "2262-04-11 23:47:16 UTC"
    );
}
