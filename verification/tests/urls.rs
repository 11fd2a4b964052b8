use live_wetter::urls::{alerts_url, current_weather_url, js_string, radar_map_src, radar_url, weather_url};

#[test]
fn current_weather_url_encodes_time_zone() {
    assert_eq!(
        current_weather_url("52.52", "13.405"),
        "https://api.brightsky.dev/current_weather?lat=52.52&lon=13.405&max_dist=500000&tz=Europe%2FBerlin&units=dwd"
    );
}

#[test]
fn weather_url_encodes_dates() {
    assert_eq!(
        weather_url("50.7753", "6.0839", "2026-02-15", "2026-02-20"),
        "https://api.brightsky.dev/weather?lat=50.7753&lon=6.0839&date=2026-02-15&last_date=2026-02-20&tz=Europe%2FBerlin&units=dwd"
    );
    assert_eq!(
        weather_url("1", "2", "a b", "ä/"),
        "https://api.brightsky.dev/weather?lat=1&lon=2&date=a%20b&last_date=%C3%A4%2F&tz=Europe%2FBerlin&units=dwd"
    );
}

#[test]
fn alerts_url_with_and_without_place() {
    assert_eq!(
        alerts_url(Some(("53.5511", "9.9937"))),
        "https://api.brightsky.dev/alerts?lat=53.5511&lon=9.9937&tz=Europe%2FBerlin"
    );
    assert_eq!(alerts_url(None), "https://api.brightsky.dev/alerts?tz=Europe%2FBerlin");
}

#[test]
fn radar_url_text() {
    assert_eq!(
        radar_url("48.1372", "11.5755"),
        "https://api.brightsky.dev/radar?lat=48.1372&lon=11.5755&distance=30000&format=plain&tz=Europe%2FBerlin"
    );
}

#[test]
fn js_string_escapes() {
    assert_eq!(js_string("a\\b\"c\nd\re"), "a\\\\b\\\"c\\nd\\re");
    assert_eq!(js_string("Köln · Mitte"), "Köln · Mitte");
}

#[test]
fn radar_map_src_fills_and_encodes() {
    let template = "<p>__RADAR_NAME__ (__RADAR_LAT__,__RADAR_LON__) __RADAR_LAT__</p>";
    assert_eq!(
        radar_map_src(template, "50.1", "8.6", "Frankfurt \"am\" Main", "Innenstadt"),
        "data:text/html;charset=utf-8,%3Cp%3EFrankfurt%20%5C%22am%5C%22%20Main%20%C2%B7%20Innenstadt%20%2850.1%2C8.6%29%2050.1%3C%2Fp%3E"
    );
}
