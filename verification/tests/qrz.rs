use hamalert_rx::qrz::{login_result, lookup_fields, xml_val};

#[test]
fn xml_value_between_tags() {
    assert_eq!(xml_val("<a><Key> abc123 </Key></a>", "Key"), Some("abc123".to_string()));
    assert_eq!(xml_val("<Key></Key>", "Key"), Some(String::new()));
    assert_eq!(xml_val("<Key>x", "Key"), None);
    assert_eq!(xml_val("</Key><Key>", "Key"), None);
    assert_eq!(xml_val("<key>x</key>", "Key"), None);
    assert_eq!(xml_val("<Key>a</Key><Key>b</Key>", "Key"), Some("a".to_string()));
}

#[test]
fn xml_value_reads_back_what_was_written() {
    for v in ["JO89WI", "  59.3 ", "a<b", ""] {
        let xml = format!("<grid>{}</grid><other/>", v);
        assert_eq!(xml_val(&xml, "grid"), Some(v.trim().to_string()));
    }
}

#[test]
fn login_outcomes() {
    assert_eq!(
        login_result("<QRZDatabase><Session><Key>2331uf894c4bd29f3923f3bacf02c532d7bd9</Key></Session></QRZDatabase>"),
        Ok("2331uf894c4bd29f3923f3bacf02c532d7bd9".to_string())
    );
    assert_eq!(
        login_result("<Session><Error>Username/password incorrect</Error></Session>"),
        Err("Username/password incorrect".to_string())
    );
    assert_eq!(
        login_result("<html>oops</html>"),
        Err("Login failed – unexpected response".to_string())
    );
}

#[test]
fn lookup_outcomes() {
    assert_eq!(
        lookup_fields("<Session><Error>Session Timeout</Error></Session>").err(),
        Some("SESSION_EXPIRED".to_string())
    );
    assert_eq!(
        lookup_fields("<Error>Invalid session key</Error>").err(),
        Some("SESSION_EXPIRED".to_string())
    );
    let f = lookup_fields(
        "<Callsign><call>SM5ABC</call><lat>59.854</lat><lon>17.625</lon><grid>JO89WU</grid><name>Anders</name></Callsign>",
    )
    .ok()
    .unwrap();
    assert_eq!(f.lat, Some("59.854".to_string()));
    assert_eq!(f.lon, Some("17.625".to_string()));
    assert_eq!(f.grid, "JO89WU");
    assert_eq!(f.name, "Anders");
    assert_eq!(f.image, "");
    let g = lookup_fields("<Callsign></Callsign>").ok().unwrap();
    assert_eq!(g.lat, None);
    assert_eq!(g.lon, None);
}
