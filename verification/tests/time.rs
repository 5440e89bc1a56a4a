use hanleng_nianchi::time::{civil_from_days, format_unix, iso_of_clock, now_iso};

#[test]
fn epoch_and_known_date() {
    assert_eq!(format_unix(0), "1970-01-01T00:00:00Z");
    assert_eq!(format_unix(1_700_000_000), "2023-11-14T22:13:20Z");
}

#[test]
fn instants_before_the_epoch() {
    assert_eq!(format_unix(-1), "1969-12-31T23:59:59Z");
    assert_eq!(format_unix(-31_622_400), "1968-12-31T00:00:00Z");
}

#[test]
fn leap_day_of_a_century_leap_year() {
    assert_eq!(format_unix(951_782_400), "2000-02-29T00:00:00Z");
    assert_eq!(format_unix(951_868_799), "2000-02-29T23:59:59Z");
}

#[test]
fn four_digit_year_padding_and_its_limits() {
    assert_eq!(format_unix(-62_135_596_800), "0001-01-01T00:00:00Z");
    assert_eq!(format_unix(-62_167_219_200), "0000-01-01T00:00:00Z");
    assert_eq!(format_unix(-62_167_219_201), "-001-12-31T23:59:59Z");
    assert_eq!(format_unix(253_402_300_799), "9999-12-31T23:59:59Z");
    assert_eq!(format_unix(253_402_300_800), "10000-01-01T00:00:00Z");
}

#[test]
fn extreme_instants() {
    assert_eq!(format_unix(i64::MAX), "292277026596-12-04T15:30:07Z");
    assert_eq!(format_unix(i64::MIN), "-292277022657-01-27T08:29:52Z");
}

#[test]
fn civil_dates_round_trip_through_day_numbers() {
    assert_eq!(civil_from_days(0), (1970, 1, 1));
    assert_eq!(civil_from_days(-1), (1969, 12, 31));
    assert_eq!(civil_from_days(11_016), (2000, 2, 29));
    assert_eq!(civil_from_days(-719_528), (0, 1, 1));
}

#[test]
fn now_is_a_timestamp() {
    let t = now_iso();
    assert!(t.ends_with('Z'));
    assert_eq!(t.len(), 20);
    assert_eq!(&t[4..5], "-");
    assert_eq!(&t[10..11], "T");
}

#[test]
fn clock_readings_format_as_timestamps() {
    assert_eq!(iso_of_clock(Some(1700000000)), "2023-11-14T22:13:20Z");
    assert_eq!(iso_of_clock(Some(0)), "1970-01-01T00:00:00Z");
    assert_eq!(iso_of_clock(None), "1970-01-01T00:00:00Z");
    assert_eq!(iso_of_clock(Some(86399)), "1970-01-01T23:59:59Z");
}
