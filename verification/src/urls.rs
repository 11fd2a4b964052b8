//! Request URLs for the Bright Sky API and the self-contained radar map page.
use vstd::prelude::*;
use vstd::utf8::encode_utf8;
use crate::text::{
    append_chars, append_str, chars_of, replace_all, replace_all_chars, string_from_chars,
};

verus! {

/// Base address of the Bright Sky API.
pub const API: &'static str = "https://api.brightsky.dev";

/// Time zone in which Bright Sky reports times.
pub const TZ: &'static str = "Europe/Berlin";

/// Bytes that URL encoding leaves as they are: ASCII letters, digits and `-._~`.
pub open spec fn url_safe_byte(b: u8) -> bool {
    ||| 48 <= b <= 57
    ||| 65 <= b <= 90
    ||| 97 <= b <= 122
    ||| b == 45
    ||| b == 46
    ||| b == 95
    ||| b == 126
}

/// The upper-case hexadecimal digit for `d` (0 through 15).
pub open spec fn hex_upper(d: int) -> char {
    if d < 10 {
        (48 + d) as char
    } else {
        (55 + d) as char
    }
}

/// One byte, percent-encoded unless it is safe.
pub open spec fn percent_byte(b: u8) -> Seq<char> {
    if url_safe_byte(b) {
        seq![b as char]
    } else {
        seq!['%', hex_upper(b as int / 16), hex_upper(b as int % 16)]
    }
}

/// Every byte of `bytes`, percent-encoded unless it is safe.
pub open spec fn percent_encode(bytes: Seq<u8>) -> Seq<char>
    decreases bytes.len(),
{
    if bytes.len() == 0 {
        seq![]
    } else {
        percent_encode(bytes.drop_last()) + percent_byte(bytes.last())
    }
}

/// The URL encoding of a text: its UTF-8 bytes, percent-encoded.
pub open spec fn url_encode(s: Seq<char>) -> Seq<char> {
    percent_encode(encode_utf8(s))
}

/// `value` URL-encoded: calls `urlencoding::encode`, which percent-encodes
/// every UTF-8 byte except ASCII letters, digits and `-._~`, with upper-case
/// hexadecimal digits.
#[verifier::external_body]
pub(crate) fn encode(value: &str) -> (r: String)
    ensures
        r@ == url_encode(value@),
{
    urlencoding::encode(value).into_owned()
}

/// The current-weather request for a place.
pub open spec fn current_weather_url_text(lat: Seq<char>, lon: Seq<char>) -> Seq<char> {
    API@ + "/current_weather?lat="@ + lat + "&lon="@ + lon + "&max_dist=500000&tz="@ + url_encode(
        TZ@,
    ) + "&units=dwd"@
}

/// The hourly-weather request for a place and a range of days.
pub open spec fn weather_url_text(
    lat: Seq<char>,
    lon: Seq<char>,
    date: Seq<char>,
    last_date: Seq<char>,
) -> Seq<char> {
    API@ + "/weather?lat="@ + lat + "&lon="@ + lon + "&date="@ + url_encode(date)
        + "&last_date="@ + url_encode(last_date) + "&tz="@ + url_encode(TZ@) + "&units=dwd"@
}

/// The alerts request, for a place or for all of Germany.
pub open spec fn alerts_url_text(place: Option<(Seq<char>, Seq<char>)>) -> Seq<char> {
    match place {
        Some((lat, lon)) => API@ + "/alerts?lat="@ + lat + "&lon="@ + lon + "&tz="@ + url_encode(
            TZ@,
        ),
        None => API@ + "/alerts?tz="@ + url_encode(TZ@),
    }
}

/// The radar request for a place.
pub open spec fn radar_url_text(lat: Seq<char>, lon: Seq<char>) -> Seq<char> {
    API@ + "/radar?lat="@ + lat + "&lon="@ + lon + "&distance=30000&format=plain&tz="@
        + url_encode(TZ@)
}

/// The URL of the current weather at the coordinates `lat`, `lon` (as text).
pub fn current_weather_url(lat: &str, lon: &str) -> (r: String)
    ensures
        r@ == current_weather_url_text(lat@, lon@),
{
    let mut v = chars_of(API);
    append_str(&mut v, "/current_weather?lat=");
    append_str(&mut v, lat);
    append_str(&mut v, "&lon=");
    append_str(&mut v, lon);
    append_str(&mut v, "&max_dist=500000&tz=");
    let tz = encode(TZ);
    append_str(&mut v, tz.as_str());
    append_str(&mut v, "&units=dwd");
    string_from_chars(&v)
}

/// The URL of the hourly weather at `lat`, `lon` from `date` to `last_date`.
pub fn weather_url(lat: &str, lon: &str, date: &str, last_date: &str) -> (r: String)
    ensures
        r@ == weather_url_text(lat@, lon@, date@, last_date@),
{
    let mut v = chars_of(API);
    append_str(&mut v, "/weather?lat=");
    append_str(&mut v, lat);
    append_str(&mut v, "&lon=");
    append_str(&mut v, lon);
    append_str(&mut v, "&date=");
    let d = encode(date);
    append_str(&mut v, d.as_str());
    append_str(&mut v, "&last_date=");
    let ld = encode(last_date);
    append_str(&mut v, ld.as_str());
    append_str(&mut v, "&tz=");
    let tz = encode(TZ);
    append_str(&mut v, tz.as_str());
    append_str(&mut v, "&units=dwd");
    string_from_chars(&v)
}

/// The URL of the alerts at `place` (latitude and longitude as text), or of
/// all alerts when there is no place.
pub fn alerts_url(place: Option<(&str, &str)>) -> (r: String)
    ensures
        r@ == alerts_url_text(
            match place {
                Some((lat, lon)) => Some((lat@, lon@)),
                None => None,
            },
        ),
{
    let mut v = chars_of(API);
    match place {
        Some((lat, lon)) => {
            append_str(&mut v, "/alerts?lat=");
            append_str(&mut v, lat);
            append_str(&mut v, "&lon=");
            append_str(&mut v, lon);
            append_str(&mut v, "&tz=");
        },
        None => {
            append_str(&mut v, "/alerts?tz=");
        },
    }
    let tz = encode(TZ);
    append_str(&mut v, tz.as_str());
    string_from_chars(&v)
}

/// The URL of the radar around `lat`, `lon`.
pub fn radar_url(lat: &str, lon: &str) -> (r: String)
    ensures
        r@ == radar_url_text(lat@, lon@),
{
    let mut v = chars_of(API);
    append_str(&mut v, "/radar?lat=");
    append_str(&mut v, lat);
    append_str(&mut v, "&lon=");
    append_str(&mut v, lon);
    append_str(&mut v, "&distance=30000&format=plain&tz=");
    let tz = encode(TZ);
    append_str(&mut v, tz.as_str());
    string_from_chars(&v)
}

/// One character escaped for a JavaScript string literal.
pub open spec fn js_escape_char(c: char) -> Seq<char> {
    if c == '\\' {
        seq!['\\', '\\']
    } else if c == '"' {
        seq!['\\', '"']
    } else if c == '\n' {
        seq!['\\', 'n']
    } else if c == '\r' {
        seq!['\\', 'r']
    } else {
        seq![c]
    }
}

/// `s` escaped for a JavaScript string literal: backslash, double quote,
/// line feed and carriage return get a backslash escape.
pub open spec fn js_escape(s: Seq<char>) -> Seq<char>
    decreases s.len(),
{
    if s.len() == 0 {
        seq![]
    } else {
        js_escape(s.drop_last()) + js_escape_char(s.last())
    }
}

fn js_escape_chars(s: &Vec<char>) -> (r: Vec<char>)
    ensures
        r@ == js_escape(s@),
{
    let mut r: Vec<char> = Vec::new();
    let n = s.len();
    let mut i: usize = 0;
    while i < n
        invariant
            i <= n,
            n == s@.len(),
            r@ == js_escape(s@.take(i as int)),
        decreases n - i,
    {
        let c = s[i];
        let ghost before = r@;
        if c == '\\' {
            r.push('\\');
            r.push('\\');
        } else if c == '"' {
            r.push('\\');
            r.push('"');
        } else if c == '\n' {
            r.push('\\');
            r.push('n');
        } else if c == '\r' {
            r.push('\\');
            r.push('r');
        } else {
            r.push(c);
        }
        proof {
            let t = s@.take(i + 1);
            assert(t.drop_last() =~= s@.take(i as int));
            assert(t.last() == c);
            assert(r@ =~= before + js_escape_char(c));
        }
        i = i + 1;
    }
    assert(s@.take(n as int) =~= s@);
    r
}

/// `value` escaped for use inside a JavaScript string literal.
pub fn js_string(value: &str) -> (r: String)
    ensures
        r@ == js_escape(value@),
{
    let v = chars_of(value);
    let e = js_escape_chars(&v);
    string_from_chars(&e)
}

/// The HTML of the radar map: `template` with the coordinates and the
/// escaped place label filled into its placeholders.
pub open spec fn radar_html(
    template: Seq<char>,
    lat: Seq<char>,
    lon: Seq<char>,
    label: Seq<char>,
) -> Seq<char> {
    replace_all(
        replace_all(replace_all(template, "__RADAR_LAT__"@, lat), "__RADAR_LON__"@, lon),
        "__RADAR_NAME__"@,
        js_escape(label),
    )
}

/// The label of a place on the radar map: city and district.
pub open spec fn radar_label(city: Seq<char>, district: Seq<char>) -> Seq<char> {
    city + " · "@ + district
}

/// The radar map of a place as a `data:` URL: the filled-in `template`,
/// URL-encoded behind the `data:text/html` header.
pub open spec fn radar_map_src_text(
    template: Seq<char>,
    lat: Seq<char>,
    lon: Seq<char>,
    city: Seq<char>,
    district: Seq<char>,
) -> Seq<char> {
    "data:text/html;charset=utf-8,"@ + url_encode(
        radar_html(template, lat, lon, radar_label(city, district)),
    )
}

/// The radar map page for a place, as a `data:` URL; `lat` and `lon` are
/// the coordinates as text.
pub fn radar_map_src(template: &str, lat: &str, lon: &str, city: &str, district: &str) -> (r:
    String)
    ensures
        r@ == radar_map_src_text(template@, lat@, lon@, city@, district@),
{
    let mut label = chars_of(city);
    append_str(&mut label, " · ");
    append_str(&mut label, district);
    let escaped = js_escape_chars(&label);
    let t = chars_of(template);
    let lat_pat = chars_of("__RADAR_LAT__");
    let lon_pat = chars_of("__RADAR_LON__");
    let name_pat = chars_of("__RADAR_NAME__");
    proof {
        reveal_strlit("__RADAR_LAT__");
        reveal_strlit("__RADAR_LON__");
        reveal_strlit("__RADAR_NAME__");
    }
    let lat_v = chars_of(lat);
    let lon_v = chars_of(lon);
    let h1 = replace_all_chars(&t, &lat_pat, &lat_v);
    let h2 = replace_all_chars(&h1, &lon_pat, &lon_v);
    let h3 = replace_all_chars(&h2, &name_pat, &escaped);
    let html = string_from_chars(&h3);
    let encoded = encode(html.as_str());
    let mut out = chars_of("data:text/html;charset=utf-8,");
    append_str(&mut out, encoded.as_str());
    string_from_chars(&out)
}

} // verus!
