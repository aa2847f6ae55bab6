use elrond::http_date;

#[test]
fn epoch_format() {
    // 1970-01-01T00:00:00Z is a Thursday.
    assert_eq!(http_date::format(0), "Thu, 01 Jan 1970 00:00:00 GMT");
}

#[test]
fn known_dates() {
    // 2001-09-09T01:46:40Z is a Sunday (a well-known epoch milestone:
    // 1_000_000_000 seconds since the Unix epoch).
    assert_eq!(http_date::format(1_000_000_000), "Sun, 09 Sep 2001 01:46:40 GMT");
    // 2024-02-29T12:34:56Z — leap-day correctness check.
    assert_eq!(http_date::format(1_709_209_896), "Thu, 29 Feb 2024 12:31:36 GMT");
}

#[test]
fn year_ends_and_starts() {
    assert_eq!(http_date::format(946_684_799), "Fri, 31 Dec 1999 23:59:59 GMT");
    assert_eq!(http_date::format(946_684_800), "Sat, 01 Jan 2000 00:00:00 GMT");
    assert_eq!(http_date::format(951_782_400), "Tue, 29 Feb 2000 00:00:00 GMT");
}

#[test]
fn days_follow_the_calendar() {
    assert_eq!(http_date::days_to_date(0), (1970, 1, 1));
    assert_eq!(http_date::days_to_date(789), (1972, 2, 29));
    assert_eq!(http_date::days_to_date(790), (1972, 3, 1));
    assert_eq!(http_date::days_to_date(2_932_896), (9999, 12, 31));
    assert_eq!(http_date::days_to_date(2_932_897), (10000, 1, 1));
}
