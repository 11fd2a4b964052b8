use live_wetter::labels::{
    condition_label, fmt_direction, fmt_percent_i, format_date, short_time, source_line, Source,
};

#[test]
fn condition_label_known_names() {
    assert_eq!(condition_label(Some("dry"), None), "trocken");
    assert_eq!(condition_label(None, Some("clear-night")), "trocken");
    assert_eq!(condition_label(Some("fog"), Some("rain")), "Nebel");
    assert_eq!(condition_label(Some("rain"), None), "Regen");
    assert_eq!(condition_label(Some("sleet"), None), "Schneeregen");
    assert_eq!(condition_label(Some("snow"), None), "Schnee");
    assert_eq!(condition_label(Some("hail"), None), "Hagel");
    assert_eq!(condition_label(Some("thunderstorm"), None), "Gewitter");
    assert_eq!(condition_label(Some("cloudy"), None), "bewölkt");
    assert_eq!(condition_label(None, Some("partly-cloudy-day")), "teils bewölkt");
    assert_eq!(condition_label(None, Some("partly-cloudy-night")), "teils bewölkt");
    assert_eq!(condition_label(Some("wind"), None), "windig");
}

#[test]
fn condition_label_unknown_and_missing() {
    assert_eq!(condition_label(Some("light-rain-showers"), None), "light rain showers");
    assert_eq!(condition_label(None, None), "keine Daten");
    assert_eq!(condition_label(Some(""), Some("rain")), "");
}

#[test]
fn format_date_reverses_fields() {
    assert_eq!(format_date("2026-02-15"), "15-02-2026");
    assert_eq!(format_date("a-b-c"), "c-b-a");
    assert_eq!(format_date("2026-02"), "2026-02");
    assert_eq!(format_date("heute"), "heute");
}

#[test]
fn short_time_of_timestamps() {
    assert_eq!(short_time("2026-02-15T06:00:00+01:00"), "15-02-2026 - 06:00 Uhr");
    assert_eq!(short_time("2026-02-15 18:45"), "15-02-2026 - 18:45 Uhr");
    assert_eq!(short_time("2026-02-15"), "2026-02-15");
    assert_eq!(short_time("heute"), "heute");
    assert_eq!(short_time("2026-02-15T6:00"), "2026-02-15T6:00");
}

#[test]
fn short_time_counts_bytes() {
    // Five two-byte characters make ten bytes.
    assert_eq!(short_time("ääääa"), "ääääa");
    assert_eq!(short_time("äääää"), "äääää");
    // The time "ääa" has three characters but five bytes.
    assert_eq!(short_time("2026-02-15 ääa"), "15-02-2026 - ääa Uhr");
}

#[test]
fn source_line_variants() {
    assert_eq!(source_line(&[]), "Nächste Wetterstation: DWD-Station");
    let s = vec![
        Source { station_name: Some("Köln-Bonn".to_string()), distance_km: Some("12,3".to_string()) },
        Source { station_name: Some("Andere".to_string()), distance_km: None },
    ];
    assert_eq!(source_line(&s), "Nächste Wetterstation: Köln-Bonn · 12,3 km");
    let s = vec![Source { station_name: None, distance_km: None }];
    assert_eq!(source_line(&s), "Nächste Wetterstation: DWD-Station");
}

#[test]
fn whole_number_measurements() {
    assert_eq!(fmt_percent_i(Some(85)), "85%");
    assert_eq!(fmt_percent_i(Some(0)), "0%");
    assert_eq!(fmt_percent_i(None), "keine Daten");
    assert_eq!(fmt_direction(Some(270)), "270°");
    assert_eq!(fmt_direction(Some(-5)), "-5°");
    assert_eq!(fmt_direction(Some(i64::MIN)), "-9223372036854775808°");
    assert_eq!(fmt_direction(None), "keine Daten");
}

#[test]
fn format_date_twice_gives_the_text_back() {
    for s in ["2024-03-05", "a-b-c", "2026-02", "heute", "", "--", "1-2-3-4", "x--y"] {
        assert_eq!(format_date(&format_date(s)), s);
    }
    assert_eq!(format_date("2024-03-05"), "05-03-2024");
}
