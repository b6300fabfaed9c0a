use hamalert_rx::band::band_from_khz;
use hamalert_rx::callsign::{base_callsign, detect_mode, detect_mode_in};
use hamalert_rx::clock::spot_id;
use hamalert_rx::spot::dedup_key;

#[test]
fn band_plan_edges() {
    assert_eq!(band_from_khz(1800), "160m");
    assert_eq!(band_from_khz(1999), "160m");
    assert_eq!(band_from_khz(2000), "?");
    assert_eq!(band_from_khz(3500), "80m");
    assert_eq!(band_from_khz(5300), "60m");
    assert_eq!(band_from_khz(7000), "40m");
    assert_eq!(band_from_khz(10149), "30m");
    assert_eq!(band_from_khz(10150), "?");
    assert_eq!(band_from_khz(14025), "20m");
    assert_eq!(band_from_khz(18067), "?");
    assert_eq!(band_from_khz(18068), "17m");
    assert_eq!(band_from_khz(21449), "15m");
    assert_eq!(band_from_khz(24890), "12m");
    assert_eq!(band_from_khz(28000), "10m");
    assert_eq!(band_from_khz(29699), "10m");
    assert_eq!(band_from_khz(50313), "6m");
    assert_eq!(band_from_khz(144300), "2m");
    assert_eq!(band_from_khz(432100), "70cm");
    assert_eq!(band_from_khz(0), "?");
    assert_eq!(band_from_khz(-14025), "?");
}

#[test]
fn base_callsign_keeps_longest_piece() {
    assert_eq!(base_callsign("OH/SM5ABC"), "SM5ABC");
    assert_eq!(base_callsign("SM5ABC/P"), "SM5ABC");
    assert_eq!(base_callsign("SM5ABC/M"), "SM5ABC");
    assert_eq!(base_callsign("OH/SM5ABC/P"), "SM5ABC");
    assert_eq!(base_callsign("SM5ABC"), "SM5ABC");
    assert_eq!(base_callsign(""), "");
    assert_eq!(base_callsign("/"), "");
}

#[test]
fn base_callsign_ties_go_to_the_last_piece() {
    assert_eq!(base_callsign("AB/CD"), "CD");
    assert_eq!(base_callsign("K1ABC/W2XYZ"), "W2XYZ");
    // length is counted in bytes: "Ö" takes two
    assert_eq!(base_callsign("ÖA/BCD"), "BCD");
    assert_eq!(base_callsign("ÖAB/BCD"), "ÖAB");
}

#[test]
fn base_callsign_is_idempotent() {
    for c in ["OH/SM5ABC/P", "AB/CD", "SM5ABC", "X//Y", ""] {
        let once = base_callsign(c);
        assert_eq!(base_callsign(&once), once);
        assert!(!once.contains('/'));
    }
}

#[test]
fn detect_mode_first_listed_wins() {
    assert_eq!(detect_mode_in("CW 599 73"), "CW");
    assert_eq!(detect_mode_in("PSK31 CQ"), "PSK31");
    assert_eq!(detect_mode_in("PSK63"), "PSK");
    assert_eq!(detect_mode_in("FT4 AND FT8"), "FT8");
    assert_eq!(detect_mode_in("USB"), "USB");
    assert_eq!(detect_mode_in("LSB"), "LSB");
    assert_eq!(detect_mode_in("NOTHING HERE"), "");
    assert_eq!(detect_mode_in(""), "");
}

#[test]
fn detect_mode_upper_cases_the_comment() {
    assert_eq!(detect_mode("ft8 -12dB"), "FT8");
    assert_eq!(detect_mode("rtty contest"), "RTTY");
    assert_eq!(detect_mode("tnx qso"), "");
    assert_eq!(detect_mode("Game"), "AM");
}

#[test]
fn dedup_key_format() {
    assert_eq!(dedup_key("OH2BH", 14025, "SM5ABC", "1234Z"), "OH2BH-14.025-SM5ABC-1234Z");
    assert_eq!(dedup_key("W1AW", 7000, "K1ABC", ""), "W1AW-7.000-K1ABC-");
    assert_eq!(dedup_key("A", 5, "B", "C"), "A-0.005-B-C");
    assert_eq!(dedup_key("A", -500, "B", "C"), "A--0.500-B-C");
    assert_eq!(dedup_key("A", 432100, "B", "C"), "A-432.100-B-C");
}

#[test]
fn spot_id_format() {
    assert_eq!(spot_id(0, 0), "0-00000");
    assert_eq!(spot_id(1, 0), "1-5851f");
    assert_eq!(spot_id(1700000000123, 0), "1700000000123-f2b05");
    assert_eq!(spot_id(-1, 0), "-1-a7ae0");
    assert_eq!(spot_id(1, 1), "1-58520");
    assert_eq!(spot_id(1, 0xa7ae1), "1-00000");
    assert_eq!(spot_id(0, 0xfffff), "0-fffff");
}

#[test]
fn unique_id_shape() {
    let mut ids = hamalert_rx::clock::IdSource::new();
    let id = hamalert_rx::clock::unique_id(&mut ids).unwrap();
    let (ms, hex) = id.split_once('-').unwrap();
    let ms: i64 = ms.parse().unwrap();
    assert_eq!(id, spot_id(ms, 0));
    assert_eq!(hex.len(), 5);
}

#[test]
fn unique_ids_differ_within_one_millisecond() {
    let mut ids = hamalert_rx::clock::IdSource::new();
    let mut all: Vec<String> = Vec::new();
    for _ in 0..2000 {
        all.push(hamalert_rx::clock::unique_id(&mut ids).unwrap());
    }
    let mut sorted = all.clone();
    sorted.sort();
    sorted.dedup();
    assert_eq!(sorted.len(), all.len());
}
