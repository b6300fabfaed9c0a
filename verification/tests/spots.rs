use hamalert_rx::clock::{reading_at, spot_id, ClockReading, EpochOffset, IdSource};
use hamalert_rx::spot::{parse_dx_line, parse_json_spot, spot_from_dx_line, spot_from_json_line};

const ID: &str = "1700000000123-f2b05";

fn reading() -> ClockReading {
    reading_at(EpochOffset::After(1_700_000_000, 123_000_000)).unwrap()
}

#[test]
fn dx_line_fields() {
    let now = reading();
    let line = "  DX de SM5ABC:    14025.0  OH2BH         CW 599 73          1234Z  ";
    let s = spot_from_dx_line(line, ID, &now).unwrap();
    assert_eq!(s.spotter, "SM5ABC");
    assert_eq!(s.full_callsign, "OH2BH");
    assert_eq!(s.callsign, "OH2BH");
    assert_eq!(s.frequency_khz, 14025);
    assert_eq!(s.band, "20m");
    assert_eq!(s.comment, "CW 599 73");
    assert_eq!(s.mode, "CW");
    assert_eq!(s.mode_detail, "CW");
    assert_eq!(s.time, "1234Z");
    assert_eq!(s.source, "telnet");
    assert_eq!(s.raw_text, line.trim());
    assert_eq!(s.id, ID);
    assert_eq!(s.received_at, "2023-11-14T22:13:20.123+00:00");
    assert_eq!(s.entity, "");
    assert_eq!(s.grid, "");
}

#[test]
fn dx_line_without_time_or_comment() {
    let now = reading();
    let s = spot_from_dx_line("DX de W1AW: 7010.5 K1ABC/P", ID, &now).unwrap();
    assert_eq!(s.full_callsign, "K1ABC/P");
    assert_eq!(s.callsign, "K1ABC");
    assert_eq!(s.frequency_khz, 7011);
    assert_eq!(s.band, "40m");
    assert_eq!(s.comment, "");
    assert_eq!(s.time, "");
    assert_eq!(s.mode, "");
}

#[test]
fn dx_line_callsign_ending_in_z_is_no_time() {
    let now = reading();
    let s = spot_from_dx_line("DX de W1AW: 14010 K1Z", ID, &now).unwrap();
    assert_eq!(s.full_callsign, "K1Z");
    assert_eq!(s.time, "");
    assert_eq!(s.comment, "");
}

#[test]
fn dx_line_short_word_ending_in_z_stays_in_comment() {
    let now = reading();
    let s = spot_from_dx_line("DX de SM5ABC: 14025.0 OH2BH CW OZ", ID, &now).unwrap();
    assert_eq!(s.time, "");
    assert_eq!(s.comment, "CW OZ");
    assert_eq!(s.mode, "CW");
    let s = spot_from_dx_line("DX de SM5ABC: 14025.0 OH2BH CW 123Z", ID, &now).unwrap();
    assert_eq!(s.time, "123Z");
    assert_eq!(s.comment, "CW");
}

#[test]
fn dx_line_padding_changes_nothing() {
    let now = reading();
    let line = "DX de SM5ABC: 14025.0 OH2BH CW 599 1234Z";
    let a = spot_from_dx_line(line, ID, &now).unwrap();
    let b = spot_from_dx_line(&format!("  {}\r\n", line), ID, &now).unwrap();
    assert_eq!(a.spotter, b.spotter);
    assert_eq!(a.callsign, b.callsign);
    assert_eq!(a.frequency_khz, b.frequency_khz);
    assert_eq!(a.comment, b.comment);
    assert_eq!(a.time, b.time);
    assert_eq!(a.raw_text, b.raw_text);
    assert!(spot_from_dx_line(" \t Hello \r\n", ID, &now).is_none());
}

#[test]
fn dx_line_long_last_word_is_comment() {
    let now = reading();
    let s = spot_from_dx_line("DX de W1AW: 14010 K1ABC ft8   up 2   123456Z", ID, &now).unwrap();
    assert_eq!(s.time, "");
    assert_eq!(s.comment, "ft8 up 2 123456Z");
    assert_eq!(s.mode, "FT8");
}

#[test]
fn dx_line_rejected() {
    let now = reading();
    assert!(spot_from_dx_line("", ID, &now).is_none());
    assert!(spot_from_dx_line("Hello SM5ABC", ID, &now).is_none());
    assert!(spot_from_dx_line("DX de SM5ABC 14025.0 OH2BH", ID, &now).is_none());
    assert!(spot_from_dx_line("DX de SM5ABC: 14025.0", ID, &now).is_none());
    assert!(spot_from_dx_line("DX de SM5ABC: abc OH2BH", ID, &now).is_none());
    assert!(spot_from_dx_line("dx de SM5ABC: 14025.0 OH2BH", ID, &now).is_none());
}

#[test]
fn dx_line_with_clock() {
    let mut ids = IdSource::new();
    let s = parse_dx_line("DX de SM5ABC: 14025.0 OH2BH CW 1234Z", &mut ids).unwrap();
    assert_eq!(s.callsign, "OH2BH");
    assert!(s.id.contains('-'));
    assert!(!s.received_at.is_empty());
    assert!(parse_dx_line("nothing", &mut ids).is_none());
    let t = parse_dx_line("DX de SM5ABC: 14025.0 OH2BH CW 1234Z", &mut ids).unwrap();
    assert_ne!(s.id, t.id);
}

#[test]
fn json_line_fields() {
    let now = reading();
    let raw = r#"{"callsign":"OH/SM5ABC","frequency":14.074,"mode":"ft8","modeDetail":"FT8","spotter":"SA0LEK","time":"1234","entity":"Sweden","continent":"EU","dxcc":"284","cq":"14","snr":"-10","summitRef":"SM/ST-001","state":"","grid":"JO89","potaRef":"SE-0001"}"#;
    let s = spot_from_json_line(raw, ID, &now).unwrap();
    assert_eq!(s.full_callsign, "OH/SM5ABC");
    assert_eq!(s.callsign, "SM5ABC");
    assert_eq!(s.frequency_khz, 14074);
    assert_eq!(s.band, "20m");
    assert_eq!(s.mode, "ft8");
    assert_eq!(s.mode_detail, "FT8");
    assert_eq!(s.spotter, "SA0LEK");
    assert_eq!(s.time, "1234");
    assert_eq!(s.entity, "Sweden");
    assert_eq!(s.continent, "EU");
    assert_eq!(s.dxcc, "284");
    assert_eq!(s.cq, "14");
    assert_eq!(s.snr, "-10");
    assert_eq!(s.summit_ref, "SM/ST-001");
    assert_eq!(s.pota_ref, "SE-0001");
    assert_eq!(s.grid, "JO89");
    assert_eq!(s.source, "telnet-json");
    assert_eq!(s.raw_text, raw);
    assert_eq!(s.id, ID);
}

#[test]
fn json_line_frequency_forms() {
    let now = reading();
    let s = spot_from_json_line(r#"{"callsign":"K1ABC","frequency":"14074.5"}"#, ID, &now).unwrap();
    assert_eq!(s.frequency_khz, 14075);
    let s = spot_from_json_line(r#"{"callsign":"K1ABC","frequency":7074}"#, ID, &now).unwrap();
    assert_eq!(s.frequency_khz, 7074);
    assert_eq!(s.band, "40m");
    let s = spot_from_json_line(r#"{"callsign":"K1ABC","frequency":"x","band":"20m"}"#, ID, &now).unwrap();
    assert_eq!(s.frequency_khz, 0);
    assert_eq!(s.band, "20m");
    let s = spot_from_json_line(r#"{"callsign":"K1ABC"}"#, ID, &now).unwrap();
    assert_eq!(s.frequency_khz, 0);
    assert_eq!(s.band, "?");
    let s = spot_from_json_line(r#"{"callsign":"K1ABC","frequency":true,"source":"rbn"}"#, ID, &now).unwrap();
    assert_eq!(s.frequency_khz, 0);
    assert_eq!(s.source, "rbn");
}

#[test]
fn json_line_rejected() {
    let now = reading();
    assert!(spot_from_json_line("{", ID, &now).is_none());
    assert!(spot_from_json_line(r#"{"frequency":14.074}"#, ID, &now).is_none());
    assert!(spot_from_json_line(r#"{"callsign":""}"#, ID, &now).is_none());
    assert!(spot_from_json_line(r#"{"callsign":12}"#, ID, &now).is_none());
    assert!(spot_from_json_line(r#"["callsign"]"#, ID, &now).is_none());
    assert!(parse_json_spot("not json", &mut IdSource::new()).is_none());
}

#[test]
fn json_line_with_clock() {
    let mut ids = IdSource::new();
    let s = parse_json_spot(r#"{"callsign":"W1AW","frequency":3.525}"#, &mut ids).unwrap();
    let t = parse_json_spot(r#"{"callsign":"W1AW","frequency":3.525}"#, &mut ids).unwrap();
    assert_ne!(s.id, t.id);
    assert_eq!(s.frequency_khz, 3525);
    assert_eq!(s.band, "80m");
}
