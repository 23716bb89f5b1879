use secure_notes::timestamp::{Timestamp, MAX_SECS, MIN_SECS};

#[test]
fn epoch_is_written_in_utc() {
    let t = Timestamp::new(0, 0).unwrap();
    assert_eq!(t.to_rfc3339(), "1970-01-01T00:00:00+00:00");
    assert_eq!(t.secs(), 0);
    assert_eq!(t.nanos(), 0);
}

#[test]
fn fraction_is_written_in_groups_of_three_digits() {
    assert_eq!(
        Timestamp::new(1, 500_000_000).unwrap().to_rfc3339(),
        "1970-01-01T00:00:01.500+00:00"
    );
    assert_eq!(
        Timestamp::new(1, 1_000).unwrap().to_rfc3339(),
        "1970-01-01T00:00:01.000001+00:00"
    );
    assert_eq!(
        Timestamp::new(1, 1).unwrap().to_rfc3339(),
        "1970-01-01T00:00:01.000000001+00:00"
    );
}

#[test]
fn parse_reads_an_offset_into_utc() {
    let t = Timestamp::parse("2024-01-02T03:04:05+00:00").unwrap();
    assert_eq!(t.secs(), 1_704_164_645);
    assert_eq!(t.nanos(), 0);
    let shifted = Timestamp::parse("2024-01-02T04:04:05+01:00").unwrap();
    assert_eq!(shifted, t);
    let zulu = Timestamp::parse("2024-01-02T03:04:05Z").unwrap();
    assert_eq!(zulu, t);
}

#[test]
fn parse_rejects_what_is_no_rfc3339() {
    assert!(Timestamp::parse("").is_none());
    assert!(Timestamp::parse("yesterday").is_none());
    assert!(Timestamp::parse("2024-01-02").is_none());
    assert!(Timestamp::parse("2024-01-02 03:04:05").is_none());
    assert!(Timestamp::parse("2024-13-02T03:04:05Z").is_none());
}

#[test]
fn text_round_trips_through_parse() {
    for (secs, nanos) in [
        (0i64, 0u32),
        (1_704_164_645, 123_456_789),
        (-1, 999_999_999),
        (MIN_SECS, 0),
        (MAX_SECS, 999_999_999),
        (59, 1_500_000_000),
    ] {
        let t = Timestamp::new(secs, nanos).unwrap();
        assert_eq!(Timestamp::parse(&t.to_rfc3339()), Some(t));
    }
}

#[test]
fn the_years_0000_and_9999_are_the_bounds() {
    assert_eq!(
        Timestamp::new(MIN_SECS, 0).unwrap().to_rfc3339(),
        "0000-01-01T00:00:00+00:00"
    );
    assert_eq!(
        Timestamp::new(MAX_SECS, 0).unwrap().to_rfc3339(),
        "9999-12-31T23:59:59+00:00"
    );
    assert!(Timestamp::new(MIN_SECS - 1, 0).is_none());
    assert!(Timestamp::new(MAX_SECS + 1, 0).is_none());
    // One hour west of UTC the last second of 9999 is already past the bound.
    assert!(Timestamp::parse("9999-12-31T23:59:59-01:00").is_none());
}

#[test]
fn nanoseconds_pass_a_second_only_in_a_leap_second() {
    assert!(Timestamp::new(59, 1_000_000_000).is_some());
    assert!(Timestamp::new(58, 1_000_000_000).is_none());
    assert!(Timestamp::new(0, 1_000_000_000).is_none());
    assert!(Timestamp::new(-1, 1_000_000_000).is_some());
    assert!(Timestamp::new(59, 2_000_000_000).is_none());
    let leap = Timestamp::parse("1970-01-01T00:00:60Z").unwrap();
    assert_eq!(leap.secs(), 59);
    assert_eq!(leap.nanos(), 1_000_000_000);
    assert_eq!(leap.to_rfc3339(), "1970-01-01T00:00:60+00:00");
}

#[test]
fn earlier_instants_come_before_later_ones() {
    let a = Timestamp::new(10, 5).unwrap();
    let b = Timestamp::new(10, 6).unwrap();
    let c = Timestamp::new(11, 0).unwrap();
    assert!(a.is_before(&b));
    assert!(b.is_before(&c));
    assert!(a.is_before(&c));
    assert!(!b.is_before(&a));
    assert!(!a.is_before(&a));
    assert_eq!(a.later_of(b), b);
    assert_eq!(b.later_of(a), b);
    assert_eq!(a.later_of(a), a);
}
