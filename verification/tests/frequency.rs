use hamalert_rx::number::{hamalert_khz_from_text, khz_from_text, MAX_KHZ};

fn chars(s: &str) -> Vec<char> {
    s.chars().collect()
}

#[test]
fn khz_text_plain_and_rounded() {
    assert_eq!(khz_from_text(&chars("14025.0")), Some(14025));
    assert_eq!(khz_from_text(&chars("14025")), Some(14025));
    assert_eq!(khz_from_text(&chars("7010.4")), Some(7010));
    assert_eq!(khz_from_text(&chars("7010.5")), Some(7011));
    assert_eq!(khz_from_text(&chars("7010.49999")), Some(7010));
    assert_eq!(khz_from_text(&chars("-7010.5")), Some(-7011));
    assert_eq!(khz_from_text(&chars(".5")), Some(1));
    assert_eq!(khz_from_text(&chars("5.")), Some(5));
    assert_eq!(khz_from_text(&chars("+3")), Some(3));
}

#[test]
fn khz_text_exponents() {
    assert_eq!(khz_from_text(&chars("1.4025e4")), Some(14025));
    assert_eq!(khz_from_text(&chars("14025E0")), Some(14025));
    assert_eq!(khz_from_text(&chars("140250e-1")), Some(14025));
    assert_eq!(khz_from_text(&chars("1e-400")), Some(0));
    assert_eq!(khz_from_text(&chars("1e400")), Some(MAX_KHZ as i64));
    assert_eq!(khz_from_text(&chars("0e999999999999999999999999999999999")), Some(0));
}

#[test]
fn khz_text_words() {
    assert_eq!(khz_from_text(&chars("inf")), Some(MAX_KHZ as i64));
    assert_eq!(khz_from_text(&chars("-Infinity")), Some(-(MAX_KHZ as i64)));
    assert_eq!(khz_from_text(&chars("NaN")), Some(0));
}

#[test]
fn khz_text_rejected() {
    assert_eq!(khz_from_text(&chars("")), None);
    assert_eq!(khz_from_text(&chars(".")), None);
    assert_eq!(khz_from_text(&chars("-")), None);
    assert_eq!(khz_from_text(&chars("14.0.25")), None);
    assert_eq!(khz_from_text(&chars("1e")), None);
    assert_eq!(khz_from_text(&chars("e5")), None);
    assert_eq!(khz_from_text(&chars("OH2BH")), None);
    assert_eq!(khz_from_text(&chars("14025Z")), None);
}

#[test]
fn hamalert_frequency_megahertz_or_kilohertz() {
    assert_eq!(hamalert_khz_from_text(&chars("14.074")), 14074);
    assert_eq!(hamalert_khz_from_text(&chars("14.0745")), 14075);
    assert_eq!(hamalert_khz_from_text(&chars("1000")), 1000000);
    assert_eq!(hamalert_khz_from_text(&chars("1000.0001")), 1000);
    assert_eq!(hamalert_khz_from_text(&chars("14074.4")), 14074);
    assert_eq!(hamalert_khz_from_text(&chars("abc")), 0);
    assert_eq!(hamalert_khz_from_text(&chars("")), 0);
    assert_eq!(hamalert_khz_from_text(&chars("-inf")), -(MAX_KHZ as i64));
}
