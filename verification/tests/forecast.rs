use live_wetter::forecast::{summarize_days, HourlyRecord};

fn rec(ts: &str, condition: Option<&str>, icon: Option<&str>, pop: Option<i64>, solar: bool, sun: bool) -> HourlyRecord {
    HourlyRecord {
        timestamp: ts.to_string(),
        condition: condition.map(|s| s.to_string()),
        icon: icon.map(|s| s.to_string()),
        precipitation_probability: pop,
        has_solar: solar,
        has_sunshine: sun,
    }
}

#[test]
fn summarize_days_groups_first_five_days_in_order() {
    let records = vec![
        rec("2026-02-17T00:00:00+01:00", None, None, None, false, false),
        rec("2026-02-15T00:00:00+01:00", None, Some("clear-night"), Some(10), true, false),
        rec("2026-02-15T01:00:00+01:00", Some("rain"), Some("rain"), Some(40), true, true),
        rec("2026-02-21T00:00:00+01:00", Some("snow"), None, Some(90), true, true),
        rec("2026-02-16T00:00:00+01:00", None, None, None, false, false),
        rec("2026-02-19T00:00:00+01:00", Some("fog"), None, Some(5), false, true),
        rec("2026-02-18T00:00:00+01:00", None, None, Some(0), false, false),
        rec("2026-02-15T02:00:00+01:00", Some("dry"), None, Some(20), false, true),
        rec("2026-02-20T00:00:00+01:00", Some("wind"), None, None, false, false),
    ];
    let days = summarize_days(&records);
    let dates: Vec<&str> = days.iter().map(|d| d.date.as_str()).collect();
    assert_eq!(dates, vec!["2026-02-15", "2026-02-16", "2026-02-17", "2026-02-18", "2026-02-19"]);
    let first = &days[0];
    assert_eq!(first.records, vec![1, 2, 7]);
    assert_eq!(first.solar_count, 2);
    assert_eq!(first.sunshine_count, 2);
    assert_eq!(first.max_pop, Some(40));
    assert_eq!(first.dominant_condition.as_deref(), Some("clear-night"));
    assert_eq!(days[1].records, vec![4]);
    assert_eq!(days[1].max_pop, None);
    assert_eq!(days[1].dominant_condition, None);
    assert_eq!(days[3].max_pop, Some(0));
    assert_eq!(days[4].dominant_condition.as_deref(), Some("fog"));
}

#[test]
fn summarize_days_of_nothing() {
    assert!(summarize_days(&[]).is_empty());
}

#[test]
fn summarize_days_short_stamps_are_their_own_day() {
    let records = vec![
        rec("b", None, None, Some(-3), false, false),
        rec("a", None, Some("cloudy"), Some(-7), false, false),
        rec("b", Some("fog"), None, Some(-1), false, false),
    ];
    let days = summarize_days(&records);
    let dates: Vec<&str> = days.iter().map(|d| d.date.as_str()).collect();
    assert_eq!(dates, vec!["a", "b"]);
    assert_eq!(days[1].records, vec![0, 2]);
    assert_eq!(days[1].max_pop, Some(-1));
    assert_eq!(days[1].dominant_condition.as_deref(), Some("fog"));
    assert_eq!(days[0].dominant_condition.as_deref(), Some("cloudy"));
}

#[test]
fn summarize_days_ignores_the_order_of_records() {
    let records = vec![
        rec("2026-02-17T00:00:00+01:00", None, None, Some(30), false, true),
        rec("2026-02-15T00:00:00+01:00", None, Some("clear-night"), Some(10), true, false),
        rec("2026-02-15T01:00:00+01:00", Some("rain"), Some("rain"), Some(40), true, true),
        rec("2026-02-21T00:00:00+01:00", Some("snow"), None, Some(90), true, true),
        rec("2026-02-16T00:00:00+01:00", None, None, None, false, false),
        rec("2026-02-19T00:00:00+01:00", Some("fog"), None, Some(5), false, true),
        rec("2026-02-18T00:00:00+01:00", None, None, Some(0), false, false),
        rec("2026-02-15T02:00:00+01:00", Some("dry"), None, Some(20), false, true),
        rec("2026-02-17T05:00:00+01:00", None, None, Some(60), true, false),
    ];
    let order = [8, 3, 0, 6, 2, 5, 1, 7, 4];
    let reordered: Vec<HourlyRecord> = order
        .iter()
        .map(|&i| {
            let r = &records[i];
            HourlyRecord {
                timestamp: r.timestamp.clone(),
                condition: r.condition.clone(),
                icon: r.icon.clone(),
                precipitation_probability: r.precipitation_probability,
                has_solar: r.has_solar,
                has_sunshine: r.has_sunshine,
            }
        })
        .collect();
    let a = summarize_days(&records);
    let b = summarize_days(&reordered);
    assert_eq!(a.len(), b.len());
    assert_eq!(a.len(), 5);
    for (x, y) in a.iter().zip(b.iter()) {
        assert_eq!(x.date, y.date);
        assert_eq!(x.records.len(), y.records.len());
        assert_eq!(x.solar_count, y.solar_count);
        assert_eq!(x.sunshine_count, y.sunshine_count);
        assert_eq!(x.max_pop, y.max_pop);
    }
    assert_eq!(b[2].date, "2026-02-17");
    assert_eq!(b[2].max_pop, Some(60));
}
