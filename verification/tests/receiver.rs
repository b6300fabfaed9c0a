use hamalert_rx::clock::{reading_at, ClockReading, EpochOffset};
use hamalert_rx::receiver::{recent_spots, Receiver};
use hamalert_rx::spot::{spot_dedup_key, spot_from_dx_line, Spot};

fn at(secs: u64) -> ClockReading {
    reading_at(EpochOffset::After(secs, 0)).unwrap()
}

fn now() -> ClockReading {
    at(1_700_000_000)
}

fn spot_at(call: &str, stamp: &str) -> Spot {
    let mut s = spot_from_dx_line(&format!("DX de SM5ABC: 14025.0 {} CW 1200Z", call), "0-00000", &now()).unwrap();
    s.received_at = stamp.to_string();
    s
}

#[test]
fn start_keeps_recent_spots_and_counts_today() {
    let loaded = vec![
        spot_at("K1AAA", "2023-11-14T22:00:00+00:00"),
        spot_at("K1BBB", "2023-11-14T19:00:00+00:00"),
        spot_at("K1CCC", "not a time"),
        spot_at("K1DDD", "2023-11-14T21:30:00.5+00:00"),
    ];
    let rx = Receiver::start(loaded, 2, &now());
    let calls: Vec<&str> = rx.spots().iter().map(|s| s.callsign.as_str()).collect();
    assert_eq!(calls, vec!["K1AAA", "K1DDD"]);
    assert_eq!(rx.spots_today(), 2);
    assert_eq!(rx.max_hours(), 2);
}

#[test]
fn hours_are_held_from_one_to_eight() {
    assert_eq!(Receiver::start(Vec::new(), 0, &now()).max_hours(), 1);
    assert_eq!(Receiver::start(Vec::new(), -5, &now()).max_hours(), 1);
    assert_eq!(Receiver::start(Vec::new(), 100, &now()).max_hours(), 8);
    assert_eq!(Receiver::start(Vec::new(), 5, &now()).max_hours(), 5);
}

#[test]
fn counts_only_spots_stamped_on_the_same_day() {
    let loaded = vec![
        spot_at("K1AAA", "2023-11-15T01:00:00+00:00"),
        spot_at("K1BBB", "2023-11-14T23:30:00+00:00"),
    ];
    let early = at(1_700_013_600);
    assert_eq!(early.rfc3339, "2023-11-15T02:00:00+00:00");
    let rx = Receiver::start(loaded, 8, &early);
    assert_eq!(rx.spots().len(), 2);
    assert_eq!(rx.spots_today(), 1);
}

#[test]
fn recent_spots_filters_by_age() {
    let spots = vec![
        spot_at("K1AAA", "2023-11-14T22:00:00+00:00"),
        spot_at("K1BBB", "2023-11-14T21:13:20+00:00"),
        spot_at("K1CCC", "2023-11-14T21:13:21+00:00"),
    ];
    let kept = recent_spots(&spots, 1, &now());
    let calls: Vec<&str> = kept.iter().map(|s| s.callsign.as_str()).collect();
    assert_eq!(calls, vec!["K1AAA", "K1CCC"]);
}

#[test]
fn same_spot_is_reported_once() {
    let mut rx = Receiver::start(Vec::new(), 2, &now());
    let start = rx.begin_session(&now());
    assert!(start.spots.is_empty());
    let line = "DX de SM5ABC: 14025.0 OH2BH CW 599 1234Z";
    let first = rx.accept_line(line, &now()).unwrap();
    assert_eq!(first.spot.callsign, "OH2BH");
    assert_eq!(first.spots_today, 1);
    assert!(rx.accept_line(line, &now()).is_none());
    assert!(rx.accept_line(&format!("  {}  ", line), &now()).is_none());
    let json = r#"{"callsign":"OH2BH","frequency":14.025,"spotter":"SM5ABC","time":"1234Z"}"#;
    assert!(rx.accept_line(json, &now()).is_none());
    let other = rx.accept_line("DX de SM5ABC: 14025.0 OH2BH CW 599 1235Z", &now()).unwrap();
    assert_eq!(other.spots_today, 2);
    assert_eq!(rx.spots().len(), 2);
    assert_eq!(rx.spots()[0].time, "1235Z");
}

#[test]
fn lines_without_spots_change_nothing() {
    let mut rx = Receiver::start(Vec::new(), 2, &now());
    rx.begin_session(&now());
    assert!(rx.accept_line("", &now()).is_none());
    assert!(rx.accept_line("   ", &now()).is_none());
    assert!(rx.accept_line("Hello, this is HamAlert", &now()).is_none());
    assert!(rx.accept_line("{\"foo\":1}", &now()).is_none());
    assert_eq!(rx.spots().len(), 0);
    assert_eq!(rx.spots_today(), 0);
}

#[test]
fn day_count_starts_again_on_a_new_day() {
    let mut rx = Receiver::start(Vec::new(), 2, &now());
    rx.begin_session(&now());
    rx.accept_line("DX de A1A: 7010 K1AAA", &now()).unwrap();
    rx.accept_line("DX de A1A: 7010 K1BBB", &now()).unwrap();
    assert_eq!(rx.spots_today(), 2);
    let last_second = at(1_700_006_399);
    assert_eq!(last_second.rfc3339, "2023-11-14T23:59:59+00:00");
    let n = rx.accept_line("DX de A1A: 7010 K1CCC", &last_second).unwrap();
    assert_eq!(n.spots_today, 3);
    let midnight = at(1_700_006_400);
    assert_eq!(midnight.rfc3339, "2023-11-15T00:00:00+00:00");
    let n = rx.accept_line("DX de A1A: 7010 K1DDD", &midnight).unwrap();
    assert_eq!(n.spots_today, 1);
}

#[test]
fn day_count_starts_again_on_the_same_day_of_the_next_month() {
    let mut rx = Receiver::start(Vec::new(), 2, &now());
    rx.begin_session(&now());
    rx.accept_line("DX de A1A: 7010 K1AAA", &now()).unwrap();
    assert_eq!(rx.spots_today(), 1);
    let month_later = at(1_700_000_000 + 30 * 86_400);
    assert_eq!(month_later.rfc3339, "2023-12-14T22:13:20+00:00");
    let n = rx.accept_line("DX de A1A: 7010 K1BBB", &month_later).unwrap();
    assert_eq!(n.spots_today, 1);
}

#[test]
fn reported_spot_comes_first_in_the_buffer() {
    let mut rx = Receiver::start(vec![spot_at("K1OLD", "2023-11-14T22:00:00+00:00")], 1, &now());
    rx.begin_session(&now());
    let n = rx.accept_line("DX de A1A: 7010 K1NEW", &at(1_700_000_100)).unwrap();
    assert_eq!(rx.spots()[0].id, n.spot.id);
    assert_eq!(rx.spots()[0].received_at, "2023-11-14T22:15:00+00:00");
    assert_eq!(rx.spots().len(), 2);
    let later = at(1_700_003_000);
    let n = rx.accept_line("DX de A1A: 7010 K1NXT", &later).unwrap();
    assert_eq!(rx.spots()[0].id, n.spot.id);
    assert_eq!(rx.spots().len(), 2);
    assert_eq!(rx.spots()[1].callsign, "K1NEW");
}

#[test]
fn no_key_is_reported_twice_in_a_session() {
    let history = vec![spot_at("K1OLD", "2023-11-14T22:00:00+00:00")];
    let old_line = "DX de SM5ABC: 14025.0 K1OLD CW 1200Z";
    let mut rx = Receiver::start(history, 2, &now());
    rx.begin_session(&now());
    let lines = [
        old_line,
        "DX de A1A: 7010 K1AAA CW 1300Z",
        "DX de A1A: 7010 K1BBB CW 1300Z",
        "  DX de A1A: 7010 K1AAA CW 1300Z",
        r#"{"callsign":"K1BBB","frequency":7.01,"spotter":"A1A","time":"1300Z"}"#,
        "DX de A1A: 7010 K1AAA CW 1301Z",
        old_line,
    ];
    let mut keys: Vec<String> = Vec::new();
    for l in lines.iter() {
        if let Some(n) = rx.accept_line(l, &now()) {
            keys.push(spot_dedup_key(&n.spot));
        }
    }
    assert_eq!(keys.len(), 3);
    for i in 0..keys.len() {
        for j in i + 1..keys.len() {
            assert_ne!(keys[i], keys[j]);
        }
    }
}

#[test]
fn buffer_holds_at_most_five_hundred_newest_first() {
    let mut rx = Receiver::start(Vec::new(), 8, &now());
    rx.begin_session(&now());
    for i in 0..510 {
        let n = rx.accept_line(&format!("DX de A1A: 14025 K{}ABC", i), &now());
        assert!(n.is_some());
    }
    assert_eq!(rx.spots().len(), 500);
    assert_eq!(rx.spots()[0].callsign, "K509ABC");
    assert_eq!(rx.spots()[499].callsign, "K10ABC");
    assert_eq!(rx.spots_today(), 510);
}

#[test]
fn new_connection_forgets_keys_of_pruned_spots() {
    let mut rx = Receiver::start(Vec::new(), 1, &now());
    rx.begin_session(&now());
    let line = "DX de A1A: 14025 K1ABC";
    assert!(rx.accept_line(line, &now()).is_some());
    let later = at(1_700_010_000);
    let start = rx.begin_session(&later);
    assert!(start.spots.is_empty());
    assert!(rx.accept_line(line, &later).is_some());
}

#[test]
fn session_start_reports_at_most_two_hundred() {
    let mut rx = Receiver::start(Vec::new(), 8, &now());
    rx.begin_session(&now());
    for i in 0..250 {
        rx.accept_line(&format!("DX de A1A: 14025 K{}ABC", i), &now()).unwrap();
    }
    let start = rx.begin_session(&now());
    assert_eq!(start.spots.len(), 200);
    assert_eq!(start.spots[0].callsign, "K249ABC");
    assert_eq!(start.spots_today, 250);
    assert!(rx.accept_line("DX de A1A: 14025 K0ABC", &now()).is_none());
}

#[test]
fn lines_handled_at_the_current_time() {
    let clock = hamalert_rx::clock::read_clock().unwrap();
    let mut rx = Receiver::start(Vec::new(), 2, &clock);
    rx.begin_session(&clock);
    let line = r#"{"callsign":"SM5ABC","frequency":14.074,"spotter":"OH2BH","time":"1200"}"#;
    let n = rx.accept_line_now(line).unwrap();
    assert_eq!(n.spot.frequency_khz, 14074);
    assert_eq!(n.spots_today, 1);
    assert!(rx.accept_line_now(line).is_none());
    assert_eq!(rx.spots().len(), 1);
}

#[test]
fn spots_read_in_one_millisecond_get_different_ids() {
    let mut rx = Receiver::start(Vec::new(), 8, &now());
    rx.begin_session(&now());
    let a = rx.accept_line("DX de A1A: 7010 K1AAA", &now()).unwrap();
    let b = rx.accept_line("DX de A1A: 7010 K1BBB", &now()).unwrap();
    assert_eq!(a.spot.id, "1700000000000-83500");
    assert_eq!(b.spot.id, "1700000000000-83501");
    assert!(rx.accept_line("DX de A1A: 7010 K1BBB", &now()).is_none());
    let c = rx.accept_line("DX de A1A: 7010 K1CCC", &now()).unwrap();
    assert_eq!(c.spot.id, "1700000000000-83502");
    let earlier = at(1_699_999_999);
    let d = rx.accept_line("DX de A1A: 7010 K1DDD", &earlier).unwrap();
    assert_eq!(d.spot.id, "1700000000000-83503");
    let later = at(1_700_000_001);
    let e = rx.accept_line("DX de A1A: 7010 K1EEE", &later).unwrap();
    assert!(e.spot.id.starts_with("1700000001000-"));
}
