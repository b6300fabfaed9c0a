use hamalert_rx::clock::{date_of, is_stamp_after, parse_utc, read_clock, reading_at, EpochOffset, IdSource};

#[test]
fn readings_after_the_epoch() {
    let r = reading_at(EpochOffset::After(1_700_000_000, 0)).unwrap();
    assert_eq!((r.secs, r.nanos), (1_700_000_000, 0));
    assert_eq!(r.rfc3339, "2023-11-14T22:13:20+00:00");
    let r = reading_at(EpochOffset::After(0, 1_500)).unwrap();
    assert_eq!(r.rfc3339, "1970-01-01T00:00:00.000001500+00:00");
    let r = reading_at(EpochOffset::After(0, 250_000)).unwrap();
    assert_eq!(r.rfc3339, "1970-01-01T00:00:00.000250+00:00");
}

#[test]
fn readings_before_the_epoch() {
    let r = reading_at(EpochOffset::Before(1, 500_000_000)).unwrap();
    assert_eq!((r.secs, r.nanos), (-2, 500_000_000));
    assert_eq!(r.rfc3339, "1969-12-31T23:59:58.500+00:00");
    let r = reading_at(EpochOffset::Before(86_400, 0)).unwrap();
    assert_eq!((r.secs, r.nanos), (-86_400, 0));
    assert_eq!(r.rfc3339, "1969-12-31T00:00:00+00:00");
}

#[test]
fn readings_out_of_range() {
    assert!(reading_at(EpochOffset::After(8_000_000_000_001, 0)).is_none());
    assert!(reading_at(EpochOffset::After(8_000_000_000_000, 0)).is_some());
    assert!(reading_at(EpochOffset::Before(8_000_000_000_000, 1)).is_none());
    assert!(reading_at(EpochOffset::Before(8_000_000_000_000, 0)).is_some());
}

#[test]
fn reading_text_reads_back() {
    for (s, n) in [(1_700_000_000u64, 123_000_000u32), (0, 0), (253_402_300_799, 999_999_999), (5, 7)] {
        let r = reading_at(EpochOffset::After(s, n)).unwrap();
        assert_eq!(parse_utc(&r.rfc3339), Some((s as i64, n)));
    }
    let r = reading_at(EpochOffset::After(253_402_300_800, 0)).unwrap();
    assert_eq!(r.rfc3339, "+10000-01-01T00:00:00+00:00");
    assert_eq!(parse_utc(&r.rfc3339), Some((253_402_300_800, 0)));
    let r = reading_at(EpochOffset::Before(8_000_000_000_000, 0)).unwrap();
    assert_eq!(parse_utc(&r.rfc3339), Some((-8_000_000_000_000, 0)));
    let r = reading_at(EpochOffset::After(8_000_000_000_000, 5)).unwrap();
    assert_eq!(parse_utc(&r.rfc3339), Some((8_000_000_000_000, 5)));
    let r = reading_at(EpochOffset::Before(62_167_219_201, 0)).unwrap();
    assert_eq!(r.rfc3339, "-0001-12-31T23:59:59+00:00");
    assert_eq!(parse_utc(&r.rfc3339), Some((-62_167_219_201, 0)));
    let r = reading_at(EpochOffset::Before(62_167_219_200, 0)).unwrap();
    assert_eq!(r.rfc3339, "0000-01-01T00:00:00+00:00");
    assert_eq!(parse_utc(&r.rfc3339), Some((-62_167_219_200, 0)));
}

#[test]
fn stamps_read_and_compared() {
    assert_eq!(parse_utc("2023-11-14T22:13:20Z"), Some((1_700_000_000, 0)));
    assert_eq!(parse_utc("2023-11-14 23:13:20+01:00"), Some((1_700_000_000, 0)));
    assert_eq!(parse_utc("yesterday"), None);
    assert!(is_stamp_after("2023-11-14T22:13:20.5+00:00", 1_700_000_000, 0));
    assert!(!is_stamp_after("2023-11-14T22:13:20+00:00", 1_700_000_000, 0));
    assert!(!is_stamp_after("garbage", -10, 0));
}

#[test]
fn utc_dates() {
    assert_eq!(date_of(0), 0);
    assert_eq!(date_of(86_399), 0);
    assert_eq!(date_of(86_400), 1);
    assert_eq!(date_of(-1), -1);
    assert_eq!(date_of(-86_400), -1);
    assert_eq!(date_of(-86_401), -2);
    assert_eq!(date_of(1_700_000_000), 19_675);
    assert_eq!(date_of(i64::MIN), -106_751_991_167_301);
    assert_eq!(date_of(i64::MAX), 106_751_991_167_300);
}

#[test]
fn the_clock_reads() {
    let r = read_clock().unwrap();
    assert!(r.secs > 1_600_000_000);
    assert_eq!(parse_utc(&r.rfc3339), Some((r.secs, r.nanos)));
}

#[test]
fn identifier_source_order() {
    let mut ids = IdSource::new();
    assert_eq!(ids.next(5), Some((5, 0)));
    ids.advance(5);
    assert_eq!(ids.next(5), Some((5, 1)));
    assert_eq!(ids.next(3), Some((5, 1)));
    assert_eq!(ids.next(6), Some((6, 0)));
    ids.advance(3);
    assert_eq!(ids.next(5), Some((5, 2)));
}

#[test]
fn identifier_source_runs_out_at_the_last_millisecond() {
    let mut ids = IdSource::new();
    ids.advance(i64::MAX - 1);
    for _ in 0..0xfffff {
        ids.advance(0);
    }
    assert_eq!(ids.next(0), Some((i64::MAX, 0)));
    ids.advance(0);
    for _ in 0..0xfffff {
        ids.advance(0);
    }
    assert_eq!(ids.next(i64::MAX), None);
}
