//! The German texts shown for weather conditions, dates, times, stations and
//! whole-number measurements.
use vstd::prelude::*;
use vstd::utf8::encode_utf8;
use crate::alerts::opt_view;
use crate::text::{
    append_chars, append_str, chars_of, int_chars, int_text, replace_char, replace_char_chars,
    same_chars, split_chars, split_on, string_from_chars, utf8_len_is,
};

verus! {

/// The German label of a weather condition (or icon) as Bright Sky names it;
/// an unknown name is shown with its hyphens as spaces.
pub open spec fn condition_text(value: Option<Seq<char>>) -> Seq<char> {
    match value {
        Some(v) => if v == "dry"@ || v == "clear-day"@ || v == "clear-night"@ {
            "trocken"@
        } else if v == "fog"@ {
            "Nebel"@
        } else if v == "rain"@ {
            "Regen"@
        } else if v == "sleet"@ {
            "Schneeregen"@
        } else if v == "snow"@ {
            "Schnee"@
        } else if v == "hail"@ {
            "Hagel"@
        } else if v == "thunderstorm"@ {
            "Gewitter"@
        } else if v == "cloudy"@ {
            "bewölkt"@
        } else if v == "partly-cloudy-day"@ || v == "partly-cloudy-night"@ {
            "teils bewölkt"@
        } else if v == "wind"@ {
            "windig"@
        } else {
            replace_char(v, '-', ' ')
        },
        None => "keine Daten"@,
    }
}

fn is_text(v: &Vec<char>, lit: &str) -> (r: bool)
    ensures
        r == (v@ == lit@),
{
    let l = chars_of(lit);
    same_chars(v, &l)
}

fn text(lit: &str) -> (r: String)
    ensures
        r@ == lit@,
{
    string_from_chars(&chars_of(lit))
}

/// The German label of the condition, or of the icon when there is no
/// condition.
pub fn condition_label(condition: Option<&str>, icon: Option<&str>) -> (r: String)
    ensures
        r@ == condition_text(
            match condition {
                Some(c) => Some(c@),
                None => match icon {
                    Some(i) => Some(i@),
                    None => None,
                },
            },
        ),
{
    let value = match condition {
        Some(c) => Some(c),
        None => icon,
    };
    match value {
        Some(s) => {
            let v = chars_of(s);
            if is_text(&v, "dry") || is_text(&v, "clear-day") || is_text(&v, "clear-night") {
                text("trocken")
            } else if is_text(&v, "fog") {
                text("Nebel")
            } else if is_text(&v, "rain") {
                text("Regen")
            } else if is_text(&v, "sleet") {
                text("Schneeregen")
            } else if is_text(&v, "snow") {
                text("Schnee")
            } else if is_text(&v, "hail") {
                text("Hagel")
            } else if is_text(&v, "thunderstorm") {
                text("Gewitter")
            } else if is_text(&v, "cloudy") {
                text("bewölkt")
            } else if is_text(&v, "partly-cloudy-day") || is_text(&v, "partly-cloudy-night") {
                text("teils bewölkt")
            } else if is_text(&v, "wind") {
                text("windig")
            } else {
                let r = replace_char_chars(&v, '-', ' ');
                string_from_chars(&r)
            }
        },
        None => text("keine Daten"),
    }
}

/// A `YYYY-MM-DD` date as `DD-MM-YYYY`: the three hyphen-separated fields in
/// reverse order; any other text as it is.
pub open spec fn date_display(value: Seq<char>) -> Seq<char> {
    let parts = split_on(value, '-');
    if parts.len() == 3 {
        parts[2] + "-"@ + parts[1] + "-"@ + parts[0]
    } else {
        value
    }
}

fn format_date_chars(value: &Vec<char>) -> (r: Vec<char>)
    ensures
        r@ == date_display(value@),
{
    let parts = split_chars(value, '-');
    if parts.len() == 3 {
        let mut v: Vec<char> = Vec::new();
        append_chars(&mut v, &parts[2]);
        append_str(&mut v, "-");
        append_chars(&mut v, &parts[1]);
        append_str(&mut v, "-");
        append_chars(&mut v, &parts[0]);
        assert(v@ =~= date_display(value@));
        v
    } else {
        crate::text::copy_chars(value)
    }
}

/// A `YYYY-MM-DD` date as `DD-MM-YYYY`; any other text unchanged.
pub fn format_date(value: &str) -> (r: String)
    ensures
        r@ == date_display(value@),
{
    let v = chars_of(value);
    let r = format_date_chars(&v);
    string_from_chars(&r)
}

/// At most the first `n` characters of `s`.
pub open spec fn first_chars(s: Seq<char>, n: int) -> Seq<char> {
    if s.len() <= n {
        s
    } else {
        s.take(n)
    }
}

/// The characters of `s` from position `start`, at most `n` of them.
pub open spec fn chars_from(s: Seq<char>, start: int, n: int) -> Seq<char> {
    if s.len() <= start {
        seq![]
    } else {
        first_chars(s.skip(start), n)
    }
}

/// A time stamp such as `2026-02-15T06:00:00+01:00` as `15-02-2026 - 06:00 Uhr`:
/// with `T` read as a space, the date is the first ten characters and the
/// time the five from the twelfth on; the text is kept as it is unless
/// these are ten and five bytes long.
pub open spec fn short_time_text(value: Seq<char>) -> Seq<char> {
    let normalized = replace_char(value, 'T', ' ');
    let date = first_chars(normalized, 10);
    let time = chars_from(normalized, 11, 5);
    if encode_utf8(date).len() == 10 && encode_utf8(time).len() == 5 {
        date_display(date) + " - "@ + time + " Uhr"@
    } else {
        value
    }
}

fn subrange_chars(s: &Vec<char>, start: usize, n: usize) -> (r: Vec<char>)
    requires
        start <= 16,
        n <= 16,
    ensures
        r@ == chars_from(s@, start as int, n as int),
{
    let len = s.len();
    if len <= start {
        return Vec::new();
    }
    let end = if len - start <= n {
        len
    } else {
        start + n
    };
    let mut r: Vec<char> = Vec::new();
    let mut i: usize = start;
    while i < end
        invariant
            start <= i <= end,
            end <= len,
            len == s@.len(),
            r@ == s@.subrange(start as int, i as int),
        decreases end - i,
    {
        r.push(s[i]);
        i = i + 1;
        assert(r@ =~= s@.subrange(start as int, i as int));
    }
    assert(r@ =~= chars_from(s@, start as int, n as int));
    r
}

/// A time stamp as `DD-MM-YYYY - HH:MM Uhr`; other texts unchanged.
pub fn short_time(value: &str) -> (r: String)
    ensures
        r@ == short_time_text(value@),
{
    let v = chars_of(value);
    let normalized = replace_char_chars(&v, 'T', ' ');
    let date = subrange_chars(&normalized, 0, 10);
    let time = subrange_chars(&normalized, 11, 5);
    assert(normalized@.skip(0) =~= normalized@);
    assert(date@ == first_chars(normalized@, 10));
    if utf8_len_is(&date, 10) && utf8_len_is(&time, 5) {
        let mut out = format_date_chars(&date);
        append_str(&mut out, " - ");
        append_chars(&mut out, &time);
        append_str(&mut out, " Uhr");
        string_from_chars(&out)
    } else {
        value.to_owned()
    }
}

/// The nearest weather station: its name, and its distance in kilometres as
/// text when it is known.
pub struct Source {
    pub station_name: Option<String>,
    pub distance_km: Option<String>,
}

/// The line about the nearest weather station.
pub open spec fn source_text(first: Option<(Option<Seq<char>>, Option<Seq<char>>)>) -> Seq<char> {
    match first {
        None => "Nächste Wetterstation: DWD-Station"@,
        Some((name, distance)) => "Nächste Wetterstation: "@ + match name {
            Some(n) => n,
            None => "DWD-Station"@,
        } + match distance {
            Some(d) => " · "@ + d + " km"@,
            None => seq![],
        },
    }
}

/// The line about the nearest of the reporting stations (the first one).
pub fn source_line(sources: &[Source]) -> (r: String)
    ensures
        r@ == source_text(
            if sources@.len() == 0 {
                None
            } else {
                Some((opt_view(sources@[0].station_name), opt_view(sources@[0].distance_km)))
            },
        ),
{
    if sources.len() == 0 {
        return text("Nächste Wetterstation: DWD-Station");
    }
    let s = &sources[0];
    let mut v = chars_of("Nächste Wetterstation: ");
    match &s.station_name {
        Some(n) => append_str(&mut v, n.as_str()),
        None => append_str(&mut v, "DWD-Station"),
    }
    match &s.distance_km {
        Some(d) => {
            append_str(&mut v, " · ");
            append_str(&mut v, d.as_str());
            append_str(&mut v, " km");
        },
        None => {},
    }
    string_from_chars(&v)
}

/// A whole number with a unit after it, or `keine Daten` when it is missing.
pub open spec fn int_with_unit(value: Option<i64>, unit: Seq<char>) -> Seq<char> {
    match value {
        Some(v) => int_text(v as int) + unit,
        None => "keine Daten"@,
    }
}

/// A percentage such as the relative humidity.
pub fn fmt_percent_i(value: Option<i64>) -> (r: String)
    ensures
        r@ == int_with_unit(value, "%"@),
{
    match value {
        Some(v) => {
            let mut c = int_chars(v);
            append_str(&mut c, "%");
            string_from_chars(&c)
        },
        None => text("keine Daten"),
    }
}

/// A wind direction in degrees.
pub fn fmt_direction(value: Option<i64>) -> (r: String)
    ensures
        r@ == int_with_unit(value, "°"@),
{
    match value {
        Some(v) => {
            let mut c = int_chars(v);
            append_str(&mut c, "°");
            string_from_chars(&c)
        },
        None => text("keine Daten"),
    }
}

/// Turning a date around twice gives the text back: three hyphen-separated
/// fields are reversed and reversed again, any other text stays as it is.
pub proof fn lemma_format_date_twice(value: Seq<char>)
    ensures
        date_display(date_display(value)) == value,
{
    let parts = split_on(value, '-');
    crate::text::lemma_split_on_join(value, '-');
    reveal_strlit("-");
    if parts.len() == 3 {
        let (a, b, c) = (parts[0], parts[1], parts[2]);
        assert(!a.contains('-') && !b.contains('-') && !c.contains('-')) by {
            assert(parts[0] == a && parts[1] == b && parts[2] == c);
        }
        let once = date_display(value);
        assert(once == c + seq!['-'] + b + seq!['-'] + a);
        crate::text::lemma_split_three(c, b, a, '-');
        assert(date_display(once) == a + seq!['-'] + b + seq!['-'] + c);
        assert(parts.drop_last() =~= seq![a, b]);
        assert(seq![a, b].drop_last() =~= seq![a]);
        assert(crate::text::join(seq![a], seq!['-']) == a);
        assert(crate::text::join(seq![a, b], seq!['-']) == a + seq!['-'] + b);
        assert(crate::text::join(parts, seq!['-']) == a + seq!['-'] + b + seq!['-'] + c);
    }
}


/// The condition and icon names that Bright Sky documents, each with its
/// German label.
pub open spec fn bright_sky_labels() -> Seq<(Seq<char>, Seq<char>)> {
    seq![
        ("dry"@, "trocken"@),
        ("clear-day"@, "trocken"@),
        ("clear-night"@, "trocken"@),
        ("fog"@, "Nebel"@),
        ("rain"@, "Regen"@),
        ("sleet"@, "Schneeregen"@),
        ("snow"@, "Schnee"@),
        ("hail"@, "Hagel"@),
        ("thunderstorm"@, "Gewitter"@),
        ("cloudy"@, "bewölkt"@),
        ("partly-cloudy-day"@, "teils bewölkt"@),
        ("partly-cloudy-night"@, "teils bewölkt"@),
        ("wind"@, "windig"@),
    ]
}

/// Every name that Bright Sky documents gets its German label, never its
/// own text with hyphens as spaces; clear sky by day, clear sky by night and
/// dry weather share one label.
pub proof fn lemma_known_condition_labels()
    ensures
        forall|k: int|
            0 <= k < bright_sky_labels().len() ==> {
                &&& condition_text(Some(#[trigger] bright_sky_labels()[k].0)) == bright_sky_labels()[k].1
                &&& condition_text(Some(bright_sky_labels()[k].0)) != replace_char(
                    bright_sky_labels()[k].0,
                    '-',
                    ' ',
                )
            },
        condition_text(Some("clear-day"@)) == condition_text(Some("dry"@)),
        condition_text(Some("clear-night"@)) == condition_text(Some("dry"@)),
{
    reveal_strlit("Gewitter");
    reveal_strlit("Hagel");
    reveal_strlit("Nebel");
    reveal_strlit("Regen");
    reveal_strlit("Schnee");
    reveal_strlit("Schneeregen");
    reveal_strlit("bewölkt");
    reveal_strlit("clear-day");
    reveal_strlit("clear-night");
    reveal_strlit("cloudy");
    reveal_strlit("dry");
    reveal_strlit("fog");
    reveal_strlit("hail");
    reveal_strlit("partly-cloudy-day");
    reveal_strlit("partly-cloudy-night");
    reveal_strlit("rain");
    reveal_strlit("sleet");
    reveal_strlit("snow");
    reveal_strlit("teils bewölkt");
    reveal_strlit("thunderstorm");
    reveal_strlit("trocken");
    reveal_strlit("wind");
    reveal_strlit("windig");
    let t = bright_sky_labels();
    assert forall|k: int| 0 <= k < t.len() implies {
        &&& condition_text(Some(#[trigger] t[k].0)) == t[k].1
        &&& condition_text(Some(t[k].0)) != replace_char(t[k].0, '-', ' ')
    } by {
        if k == 0 {
            assert(t[k] == ("dry"@, "trocken"@));
            assert("dry"@.len() == 3);
            assert("trocken"@.len() == 7);
            assert(condition_text(Some("dry"@)) == "trocken"@);
        } else if k == 1 {
            assert(t[k] == ("clear-day"@, "trocken"@));
            assert("clear-day"@.len() == 9);
            assert("dry"@.len() == 3);
            assert("trocken"@.len() == 7);
            assert(condition_text(Some("clear-day"@)) == "trocken"@);
        } else if k == 2 {
            assert(t[k] == ("clear-night"@, "trocken"@));
            assert("clear-night"@.len() == 11);
            assert("dry"@.len() == 3);
            assert("clear-day"@.len() == 9);
            assert("trocken"@.len() == 7);
            assert(condition_text(Some("clear-night"@)) == "trocken"@);
        } else if k == 3 {
            assert(t[k] == ("fog"@, "Nebel"@));
            assert("fog"@.len() == 3);
            assert("fog"@[0] != "dry"@[0]);
            assert("clear-day"@.len() == 9);
            assert("clear-night"@.len() == 11);
            assert("Nebel"@.len() == 5);
            assert(condition_text(Some("fog"@)) == "Nebel"@);
        } else if k == 4 {
            assert(t[k] == ("rain"@, "Regen"@));
            assert("rain"@.len() == 4);
            assert("dry"@.len() == 3);
            assert("clear-day"@.len() == 9);
            assert("clear-night"@.len() == 11);
            assert("fog"@.len() == 3);
            assert("Regen"@.len() == 5);
            assert(condition_text(Some("rain"@)) == "Regen"@);
        } else if k == 5 {
            assert(t[k] == ("sleet"@, "Schneeregen"@));
            assert("sleet"@.len() == 5);
            assert("dry"@.len() == 3);
            assert("clear-day"@.len() == 9);
            assert("clear-night"@.len() == 11);
            assert("fog"@.len() == 3);
            assert("rain"@.len() == 4);
            assert("Schneeregen"@.len() == 11);
            assert(condition_text(Some("sleet"@)) == "Schneeregen"@);
        } else if k == 6 {
            assert(t[k] == ("snow"@, "Schnee"@));
            assert("snow"@.len() == 4);
            assert("dry"@.len() == 3);
            assert("clear-day"@.len() == 9);
            assert("clear-night"@.len() == 11);
            assert("fog"@.len() == 3);
            assert("snow"@[0] != "rain"@[0]);
            assert("sleet"@.len() == 5);
            assert("Schnee"@.len() == 6);
            assert(condition_text(Some("snow"@)) == "Schnee"@);
        } else if k == 7 {
            assert(t[k] == ("hail"@, "Hagel"@));
            assert("hail"@.len() == 4);
            assert("dry"@.len() == 3);
            assert("clear-day"@.len() == 9);
            assert("clear-night"@.len() == 11);
            assert("fog"@.len() == 3);
            assert("hail"@[0] != "rain"@[0]);
            assert("sleet"@.len() == 5);
            assert("hail"@[0] != "snow"@[0]);
            assert("Hagel"@.len() == 5);
            assert(condition_text(Some("hail"@)) == "Hagel"@);
        } else if k == 8 {
            assert(t[k] == ("thunderstorm"@, "Gewitter"@));
            assert("thunderstorm"@.len() == 12);
            assert("dry"@.len() == 3);
            assert("clear-day"@.len() == 9);
            assert("clear-night"@.len() == 11);
            assert("fog"@.len() == 3);
            assert("rain"@.len() == 4);
            assert("sleet"@.len() == 5);
            assert("snow"@.len() == 4);
            assert("hail"@.len() == 4);
            assert("Gewitter"@.len() == 8);
            assert(condition_text(Some("thunderstorm"@)) == "Gewitter"@);
        } else if k == 9 {
            assert(t[k] == ("cloudy"@, "bewölkt"@));
            assert("cloudy"@.len() == 6);
            assert("dry"@.len() == 3);
            assert("clear-day"@.len() == 9);
            assert("clear-night"@.len() == 11);
            assert("fog"@.len() == 3);
            assert("rain"@.len() == 4);
            assert("sleet"@.len() == 5);
            assert("snow"@.len() == 4);
            assert("hail"@.len() == 4);
            assert("thunderstorm"@.len() == 12);
            assert("bewölkt"@.len() == 7);
            assert(condition_text(Some("cloudy"@)) == "bewölkt"@);
        } else if k == 10 {
            assert(t[k] == ("partly-cloudy-day"@, "teils bewölkt"@));
            assert("partly-cloudy-day"@.len() == 17);
            assert("dry"@.len() == 3);
            assert("clear-day"@.len() == 9);
            assert("clear-night"@.len() == 11);
            assert("fog"@.len() == 3);
            assert("rain"@.len() == 4);
            assert("sleet"@.len() == 5);
            assert("snow"@.len() == 4);
            assert("hail"@.len() == 4);
            assert("thunderstorm"@.len() == 12);
            assert("cloudy"@.len() == 6);
            assert("teils bewölkt"@.len() == 13);
            assert(condition_text(Some("partly-cloudy-day"@)) == "teils bewölkt"@);
        } else if k == 11 {
            assert(t[k] == ("partly-cloudy-night"@, "teils bewölkt"@));
            assert("partly-cloudy-night"@.len() == 19);
            assert("dry"@.len() == 3);
            assert("clear-day"@.len() == 9);
            assert("clear-night"@.len() == 11);
            assert("fog"@.len() == 3);
            assert("rain"@.len() == 4);
            assert("sleet"@.len() == 5);
            assert("snow"@.len() == 4);
            assert("hail"@.len() == 4);
            assert("thunderstorm"@.len() == 12);
            assert("cloudy"@.len() == 6);
            assert("partly-cloudy-day"@.len() == 17);
            assert("teils bewölkt"@.len() == 13);
            assert(condition_text(Some("partly-cloudy-night"@)) == "teils bewölkt"@);
        } else if k == 12 {
            assert(t[k] == ("wind"@, "windig"@));
            assert("wind"@.len() == 4);
            assert("dry"@.len() == 3);
            assert("clear-day"@.len() == 9);
            assert("clear-night"@.len() == 11);
            assert("fog"@.len() == 3);
            assert("wind"@[0] != "rain"@[0]);
            assert("sleet"@.len() == 5);
            assert("wind"@[0] != "snow"@[0]);
            assert("wind"@[0] != "hail"@[0]);
            assert("thunderstorm"@.len() == 12);
            assert("cloudy"@.len() == 6);
            assert("partly-cloudy-day"@.len() == 17);
            assert("partly-cloudy-night"@.len() == 19);
            assert("windig"@.len() == 6);
            assert(condition_text(Some("wind"@)) == "windig"@);
        }
        assert(replace_char(t[k].0, '-', ' ').len() == t[k].0.len());
        assert(t[k].1.len() != t[k].0.len());
    }
}

/// A name that Bright Sky does not document is shown as it is, with its
/// hyphens as spaces.
pub proof fn lemma_unknown_condition_label(v: Seq<char>)
    requires
        forall|k: int| 0 <= k < bright_sky_labels().len() ==> (#[trigger] bright_sky_labels()[k]).0 != v,
    ensures
        condition_text(Some(v)) == replace_char(v, '-', ' '),
{
    reveal_strlit("Gewitter");
    reveal_strlit("Hagel");
    reveal_strlit("Nebel");
    reveal_strlit("Regen");
    reveal_strlit("Schnee");
    reveal_strlit("Schneeregen");
    reveal_strlit("bewölkt");
    reveal_strlit("clear-day");
    reveal_strlit("clear-night");
    reveal_strlit("cloudy");
    reveal_strlit("dry");
    reveal_strlit("fog");
    reveal_strlit("hail");
    reveal_strlit("partly-cloudy-day");
    reveal_strlit("partly-cloudy-night");
    reveal_strlit("rain");
    reveal_strlit("sleet");
    reveal_strlit("snow");
    reveal_strlit("teils bewölkt");
    reveal_strlit("thunderstorm");
    reveal_strlit("trocken");
    reveal_strlit("wind");
    reveal_strlit("windig");
    let t = bright_sky_labels();
        assert(t[0].0 != v);
        assert(t[1].0 != v);
        assert(t[2].0 != v);
        assert(t[3].0 != v);
        assert(t[4].0 != v);
        assert(t[5].0 != v);
        assert(t[6].0 != v);
        assert(t[7].0 != v);
        assert(t[8].0 != v);
        assert(t[9].0 != v);
        assert(t[10].0 != v);
        assert(t[11].0 != v);
        assert(t[12].0 != v);
}

} // verus!
