use gugolpi::timeutil::utc_rfc3339_from_unix;

#[test]
fn epoch_is_1970() {
    assert_eq!(utc_rfc3339_from_unix(0), "1970-01-01T00:00:00Z");
}

#[test]
fn known_instant() {
    // 2026-09-24T12:34:56Z
    assert_eq!(utc_rfc3339_from_unix(1_790_253_296), "2026-09-24T12:34:56Z");
}

#[test]
fn leap_day() {
    // 2024-02-29T00:00:00Z
    assert_eq!(utc_rfc3339_from_unix(1_709_164_800), "2024-02-29T00:00:00Z");
}

#[test]
fn century_rules() {
    // 2000 is a leap year, 2100 is not.
    assert_eq!(utc_rfc3339_from_unix(951_782_400), "2000-02-29T00:00:00Z");
    assert_eq!(utc_rfc3339_from_unix(4_107_542_400), "2100-03-01T00:00:00Z");
    assert_eq!(utc_rfc3339_from_unix(4_107_542_399), "2100-02-28T23:59:59Z");
}

#[test]
fn last_second_of_a_year() {
    assert_eq!(utc_rfc3339_from_unix(1_735_689_599), "2024-12-31T23:59:59Z");
}
