use live_wetter::calendar::{date_string, js_date_key};
use live_wetter::alerts::{
    alert_card, alert_date_key, alert_group_key, alert_starts_today_or_tomorrow, date_key,
    normalize_alert_key, onset_key_in_range, select_alerts, severity_label, severity_rank,
    unique_alerts, Alert, AlertLocation, AlertsResponse,
};

fn alert(onset: &str, severity: Option<&str>, event: Option<&str>, headline: &str) -> Alert {
    Alert {
        onset: onset.to_string(),
        expires: None,
        severity: severity.map(|s| s.to_string()),
        event_de: event.map(|s| s.to_string()),
        headline_de: headline.to_string(),
        description_de: String::new(),
        instruction_de: None,
    }
}

const TODAY: i32 = 20260215;
const TOMORROW: i32 = 20260216;

#[test]
fn date_key_combines_fields() {
    assert_eq!(date_key("2026", "02", "15"), Some(20260215));
    assert_eq!(date_key("+2026", "2", "15"), Some(20260215));
    assert_eq!(date_key("-1", "0", "0"), Some(-10000));
    assert_eq!(date_key("2026", "Feb", "15"), None);
    assert_eq!(date_key("", "02", "15"), None);
    assert_eq!(date_key("2026", "02", "-"), None);
}

#[test]
fn alert_date_key_reads_iso_dates() {
    assert_eq!(alert_date_key("2026-02-15T06:00:00+01:00"), Some(20260215));
    assert_eq!(alert_date_key("  2026-02-15 06:00"), Some(20260215));
}

#[test]
fn alert_date_key_reads_day_first_dates() {
    assert_eq!(alert_date_key("15-02-2026"), Some(20260215));
    assert_eq!(alert_date_key("15.02.2026 06:00"), Some(20260215));
}

#[test]
fn alert_date_key_rejects_other_texts() {
    assert_eq!(alert_date_key(""), None);
    assert_eq!(alert_date_key("   "), None);
    assert_eq!(alert_date_key("morgen"), None);
    assert_eq!(alert_date_key("2026-02"), None);
    assert_eq!(alert_date_key("2026-02-15-01"), None);
    assert_eq!(alert_date_key("2026-xx-15"), None);
}

#[test]
fn alert_date_key_four_bytes_decide_the_order() {
    // "+026" is four bytes: read as year first.
    assert_eq!(alert_date_key("+026-02-15"), Some(260215));
    // "02026" is five bytes: read as day first.
    assert_eq!(alert_date_key("02026-02-15"), Some(152226));
}

#[test]
fn onset_key_in_range_detects_overflow() {
    assert!(onset_key_in_range("2026-02-15"));
    assert!(onset_key_in_range("kein Datum"));
    assert!(onset_key_in_range("999999-01-01"));
    assert!(!onset_key_in_range("01.01.999999"));
    assert!(!onset_key_in_range("2026-99999999-01"));
    assert!(!onset_key_in_range("2026-21474836-01"));
    assert!(onset_key_in_range("9999-01-01"));
}

#[test]
fn starts_today_or_tomorrow_window() {
    assert!(alert_starts_today_or_tomorrow(&alert("2026-02-15T10:00", None, None, "h"), TODAY, TOMORROW));
    assert!(alert_starts_today_or_tomorrow(&alert("2026-02-16T10:00", None, None, "h"), TODAY, TOMORROW));
    assert!(!alert_starts_today_or_tomorrow(&alert("2026-02-17T10:00", None, None, "h"), TODAY, TOMORROW));
    assert!(!alert_starts_today_or_tomorrow(&alert("2026-02-14T23:00", None, None, "h"), TODAY, TOMORROW));
    assert!(alert_starts_today_or_tomorrow(&alert("bald", None, None, "h"), TODAY, TOMORROW));
}

#[test]
fn normalize_alert_key_lowercases_and_squeezes() {
    assert_eq!(normalize_alert_key("  Sturm   BÖEN \t"), "sturm böen");
    assert_eq!(normalize_alert_key(""), "");
    assert_eq!(normalize_alert_key("\u{3000}Frost\u{00A0}Warnung "), "frost warnung");
}

#[test]
fn group_key_uses_event_or_headline() {
    assert_eq!(
        alert_group_key(&alert("x", Some("Moderate"), Some(" Sturmböen "), "Amtliche Warnung")),
        "sturmböen|moderate"
    );
    assert_eq!(
        alert_group_key(&alert("x", None, Some("   "), "Amtliche  WARNUNG vor Frost")),
        "amtliche warnung vor frost|"
    );
    assert_eq!(alert_group_key(&alert("x", Some("minor"), None, "Glätte")), "glätte|minor");
}

#[test]
fn unique_alerts_keeps_first_of_each_group_in_window() {
    let alerts = vec![
        alert("2026-02-15T06:00", Some("moderate"), Some("STURMBÖEN"), "a"),
        alert("2026-02-15T09:00", Some("moderate"), Some("sturmböen "), "b"),
        alert("2026-02-18T09:00", Some("severe"), Some("Frost"), "c"),
        alert("ohne Datum", Some("severe"), Some("Frost"), "d"),
        alert("2026-02-16T09:00", Some("severe"), Some("frost"), "e"),
        alert("2026-02-16T10:00", Some("minor"), Some("Sturmböen"), "f"),
    ];
    let kept = unique_alerts(&alerts, TODAY, TOMORROW);
    let heads: Vec<&str> = kept.iter().map(|a| a.headline_de.as_str()).collect();
    assert_eq!(heads, vec!["a", "d", "f"]);
}

#[test]
fn unique_alerts_of_nothing() {
    assert!(unique_alerts(&[], TODAY, TOMORROW).is_empty());
}

#[test]
fn unique_alerts_groups_are_distinct() {
    let alerts = vec![
        alert("2026-02-15", Some("minor"), Some("Glätte"), "a"),
        alert("2026-02-15", Some("minor"), Some("glätte"), "b"),
        alert("2026-02-16", Some("minor"), Some("GLÄTTE"), "c"),
        alert("2026-02-16", Some("severe"), Some("Glätte"), "d"),
    ];
    let kept = unique_alerts(&alerts, TODAY, TOMORROW);
    let keys: Vec<String> = kept.iter().map(alert_group_key).collect();
    assert_eq!(keys, vec!["glätte|minor".to_string(), "glätte|severe".to_string()]);
}

#[test]
fn severity_rank_values() {
    assert_eq!(severity_rank(Some("extreme")), 4);
    assert_eq!(severity_rank(Some("severe")), 3);
    assert_eq!(severity_rank(Some("moderate")), 2);
    assert_eq!(severity_rank(Some("minor")), 1);
    assert_eq!(severity_rank(Some("Extreme")), 0);
    assert_eq!(severity_rank(None), 0);
}

#[test]
fn severity_label_values() {
    assert_eq!(severity_label("extreme"), "extrem");
    assert_eq!(severity_label("severe"), "schwer");
    assert_eq!(severity_label("moderate"), "moderat");
    assert_eq!(severity_label("minor"), "gering");
    assert_eq!(severity_label("info"), "Hinweis");
}

fn response(alerts: Vec<Alert>, name: Option<&str>) -> AlertsResponse {
    AlertsResponse {
        alerts,
        location: name.map(|n| AlertLocation {
            name: Some(n.to_string()),
            district: None,
            state: None,
        }),
    }
}

#[test]
fn select_alerts_orders_national_by_severity() {
    let national = vec![
        alert("2026-02-15", Some("minor"), Some("A"), "A"),
        alert("2026-02-15", Some("severe"), Some("B"), "B"),
        alert("2026-02-15", Some("minor"), Some("C"), "C"),
        alert("2026-02-15", Some("extreme"), Some("D"), "D"),
        alert("2026-02-15", None, Some("E"), "E"),
    ];
    let sel = select_alerts(&response(vec![], None), &response(national, None), TODAY, TOMORROW);
    assert_eq!(sel.local_title, "gewählter Ort");
    assert!(sel.local.is_empty());
    let heads: Vec<&str> = sel.national.iter().map(|a| a.headline_de.as_str()).collect();
    assert_eq!(heads, vec!["D", "B", "C", "A", "E"]);
}

#[test]
fn select_alerts_leaves_out_local_groups_and_limits() {
    let local: Vec<Alert> = (0..8)
        .map(|i| alert("2026-02-15", Some("minor"), Some(&format!("L{i}")), &format!("L{i}")))
        .collect();
    let mut national: Vec<Alert> = (0..10)
        .map(|i| alert("2026-02-16", Some("moderate"), Some(&format!("N{i}")), &format!("N{i}")))
        .collect();
    national.push(alert("2026-02-16", Some("minor"), Some("l3"), "same group as L3"));
    let sel = select_alerts(&response(local, Some("Köln")), &response(national, Some("x")), TODAY, TOMORROW);
    assert_eq!(sel.local_title, "Köln");
    let local_heads: Vec<&str> = sel.local.iter().map(|a| a.headline_de.as_str()).collect();
    assert_eq!(local_heads, vec!["L0", "L1", "L2", "L3", "L4", "L5"]);
    let heads: Vec<&str> = sel.national.iter().map(|a| a.headline_de.as_str()).collect();
    assert_eq!(heads, vec!["N9", "N8", "N7", "N6", "N5", "N4", "N3", "N2"]);
}

#[test]
fn alert_card_fields() {
    let a = Alert {
        onset: "2026-02-15T06:00:00+01:00".to_string(),
        expires: Some("2026-02-16T18:30:00+01:00".to_string()),
        severity: None,
        event_de: Some("FROST".to_string()),
        headline_de: "Amtliche WARNUNG vor FROST".to_string(),
        description_de: "  Es tritt Frost auf.\n".to_string(),
        instruction_de: Some("   ".to_string()),
    };
    let card = alert_card(&a);
    assert_eq!(card.severity, "info");
    assert_eq!(card.severity_label, "Hinweis");
    assert_eq!(card.headline, "Amtliche WARNUNG vor FROST");
    assert_eq!(card.description, "Es tritt Frost auf.");
    assert_eq!(card.instruction, None);
    assert_eq!(card.event.as_deref(), Some("FROST"));
    assert_eq!(card.onset, "15-02-2026 - 06:00 Uhr");
    assert_eq!(card.expires.as_deref(), Some("16-02-2026 - 18:30 Uhr"));
    let mut b = a;
    b.severity = Some("severe".to_string());
    b.instruction_de = Some(" Fahren Sie vorsichtig. ".to_string());
    let card = alert_card(&b);
    assert_eq!(card.severity_label, "schwer");
    assert_eq!(card.instruction.as_deref(), Some("Fahren Sie vorsichtig."));
}

#[test]
fn date_string_reads_back_as_its_key() {
    for (y, m, d) in [(2026u32, 1u32, 15u32), (1999, 11, 31), (2030, 0, 1), (9999, 5, 99)] {
        assert_eq!(alert_date_key(&date_string(y, m, d)), Some(js_date_key(y, m, d)));
    }
}

#[test]
fn national_selection_is_separate_and_ordered() {
    let local = vec![alert("2026-02-15", Some("severe"), Some("Orkan"), "lokal")];
    let national = vec![
        alert("2026-02-15", Some("severe"), Some("ORKAN"), "gleiche Gruppe"),
        alert("2026-02-15", Some("minor"), Some("Glätte"), "g1"),
        alert("2026-02-15", Some("extreme"), Some("Unwetter"), "u1"),
        alert("2026-02-15", Some("moderate"), Some("Frost"), "f1"),
        alert("2026-02-17", Some("extreme"), Some("Hitze"), "morgen nicht"),
    ];
    let sel = select_alerts(&response(local, None), &response(national, None), TODAY, TOMORROW);
    let heads: Vec<&str> = sel.national.iter().map(|a| a.headline_de.as_str()).collect();
    assert_eq!(heads, vec!["u1", "f1", "g1"]);
    let ranks: Vec<i32> = sel.national.iter().map(|a| severity_rank(a.severity.as_deref())).collect();
    assert!(ranks.windows(2).all(|w| w[0] >= w[1]));
}

#[test]
fn date_keys_order_days_as_their_texts() {
    let days = [(2026, 1, 28), (2026, 2, 1), (2025, 11, 31), (2026, 0, 9), (2026, 0, 10), (1999, 5, 5)];
    for &(y1, m1, d1) in days.iter() {
        for &(y2, m2, d2) in days.iter() {
            let t1 = date_string(y1, m1, d1);
            let t2 = date_string(y2, m2, d2);
            let k1 = alert_date_key(&t1).unwrap();
            let k2 = alert_date_key(&t2).unwrap();
            assert_eq!(k1, js_date_key(y1, m1, d1));
            assert_eq!(t1 < t2, k1 < k2);
        }
    }
}
