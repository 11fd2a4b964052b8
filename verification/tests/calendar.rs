use live_wetter::calendar::{date_string, format_period_date, js_date_key, tariff_period, time_label};

#[test]
fn js_date_key_counts_months_from_zero() {
    assert_eq!(js_date_key(2026, 1, 15), 20260215);
    assert_eq!(js_date_key(2025, 11, 31), 20251231);
}

#[test]
fn date_string_pads() {
    assert_eq!(date_string(2026, 0, 5), "2026-01-05");
    assert_eq!(date_string(987, 10, 30), "0987-11-30");
    assert_eq!(date_string(12345, 8, 1), "12345-09-01");
}

#[test]
fn time_label_pads() {
    assert_eq!(time_label(7, 5, 9), "07:05:09");
    assert_eq!(time_label(23, 59, 0), "23:59:00");
    assert_eq!(time_label(123, 0, 0), "123:00:00");
}

#[test]
fn format_period_date_pads_after_sign() {
    assert_eq!(format_period_date(2026, 2, 1), "01.02.2026");
    assert_eq!(format_period_date(-5, 1, 31), "31.01.-005");
    assert_eq!(format_period_date(2026, -3, 1), "01.-3.2026");
}

fn bounds(year: i32, month: i32) -> (i32, i32, i32, i32, i32, i32) {
    let p = tariff_period(year, month);
    (p.start_year, p.start_month, p.end_year, p.end_month, p.end_day, p.period_index)
}

#[test]
fn tariff_period_before_start() {
    assert_eq!(bounds(2025, 12), (2026, 2, 2026, 7, 31, 0));
    assert_eq!(bounds(2026, 1), (2026, 2, 2026, 7, 31, 0));
}

#[test]
fn tariff_period_halves_of_the_year() {
    assert_eq!(bounds(2026, 2), (2026, 2, 2026, 7, 31, 0));
    assert_eq!(bounds(2026, 7), (2026, 2, 2026, 7, 31, 0));
    assert_eq!(bounds(2026, 8), (2026, 8, 2027, 1, 31, 1));
    assert_eq!(bounds(2027, 1), (2026, 8, 2027, 1, 31, 1));
    assert_eq!(bounds(2027, 3), (2027, 2, 2027, 7, 31, 2));
    assert_eq!(bounds(2030, 12), (2030, 8, 2031, 1, 31, 9));
}

#[test]
fn tariff_period_label() {
    assert_eq!(tariff_period(2026, 9).period_label(), "01.08.2026 bis 31.01.2027");
    assert_eq!(tariff_period(2026, 3).period_label(), "01.02.2026 bis 31.07.2026");
}

#[test]
fn tariff_period_contains_its_month() {
    for year in 2026..2032 {
        for month in 1..=12 {
            if year == 2026 && month < 2 {
                continue;
            }
            let p = tariff_period(year, month);
            let start = p.start_year * 12 + p.start_month;
            let end = p.end_year * 12 + p.end_month;
            assert!(start <= year * 12 + month && year * 12 + month <= end);
            assert_eq!(end - start, 5);
        }
    }
}

#[test]
fn tariff_period_number_never_goes_back() {
    let mut last = 0;
    for year in 2024..2032 {
        for month in 1..=12 {
            let p = tariff_period(year, month);
            assert!(p.period_index >= last);
            last = p.period_index;
        }
    }
    assert_eq!(tariff_period(2026, 1).period_index, 0);
    assert_eq!(tariff_period(2026, 8).period_index, 1);
    assert_eq!(tariff_period(2027, 1).period_index, 1);
    assert_eq!(tariff_period(2027, 2).period_index, 2);
}
