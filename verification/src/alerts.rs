//! DWD warnings: the date a warning starts on, the group a warning belongs
//! to, and which warnings are shown, locally and for all of Germany.
use vstd::prelude::*;
use vstd::utf8::encode_utf8;
use crate::text::{
    all_digits, chars_of, contains_char, copy_chars, first_word, first_word_chars, lowercase, parse_i32,
    parse_i32_chars, replace_char, replace_char_chars, same_chars, split_chars, split_on, squeeze,
    squeeze_chars, string_from_chars, to_lowercase_str, trim, trim_chars, utf8_len_is,
};

verus! {

/// A DWD warning as Bright Sky reports it.
pub struct Alert {
    pub onset: String,
    pub expires: Option<String>,
    pub severity: Option<String>,
    pub event_de: Option<String>,
    pub headline_de: String,
    pub description_de: String,
    pub instruction_de: Option<String>,
}

/// The characters of an optional text.
pub open spec fn opt_view(o: Option<String>) -> Option<Seq<char>> {
    match o {
        Some(s) => Some(s@),
        None => None,
    }
}

/// A warning, by the characters of its fields.
pub struct AlertModel {
    pub onset: Seq<char>,
    pub expires: Option<Seq<char>>,
    pub severity: Option<Seq<char>>,
    pub event_de: Option<Seq<char>>,
    pub headline_de: Seq<char>,
    pub description_de: Seq<char>,
    pub instruction_de: Option<Seq<char>>,
}

impl View for Alert {
    type V = AlertModel;

    open spec fn view(&self) -> AlertModel {
        AlertModel {
            onset: self.onset@,
            expires: opt_view(self.expires),
            severity: opt_view(self.severity),
            event_de: opt_view(self.event_de),
            headline_de: self.headline_de@,
            description_de: self.description_de@,
            instruction_de: opt_view(self.instruction_de),
        }
    }
}

/// A copy of an optional text.
pub fn copy_opt(o: &Option<String>) -> (r: Option<String>)
    ensures
        opt_view(r) == opt_view(*o),
{
    match o {
        Some(s) => Some(s.clone()),
        None => None,
    }
}

/// A copy of `a`.
pub fn copy_alert(a: &Alert) -> (r: Alert)
    ensures
        r@ == a@,
{
    Alert {
        onset: a.onset.clone(),
        expires: copy_opt(&a.expires),
        severity: copy_opt(&a.severity),
        event_de: copy_opt(&a.event_de),
        headline_de: a.headline_de.clone(),
        description_de: a.description_de.clone(),
        instruction_de: copy_opt(&a.instruction_de),
    }
}

/// Whether `v` is in the range of `i32`.
pub open spec fn fits_i32(v: int) -> bool {
    i32::MIN <= v <= i32::MAX
}

/// The date key `year * 10000 + month * 100 + day` of three numbers given
/// as text, when all three parse as `i32`.
pub open spec fn date_key_value(year: Seq<char>, month: Seq<char>, day: Seq<char>) -> Option<int> {
    match (parse_i32(year), parse_i32(month), parse_i32(day)) {
        (Some(a), Some(b), Some(c)) => Some(a * 10000 + b * 100 + c),
        _ => None,
    }
}

/// Whether computing the date key stays within `i32` at every step it takes
/// (the year is parsed and scaled first, then the month, then the day).
pub open spec fn date_key_in_range(year: Seq<char>, month: Seq<char>, day: Seq<char>) -> bool {
    match parse_i32(year) {
        None => true,
        Some(a) => fits_i32(a * 10000) && match parse_i32(month) {
            None => true,
            Some(b) => fits_i32(b * 100) && fits_i32(a * 10000 + b * 100) && match parse_i32(
                day,
            ) {
                None => true,
                Some(c) => fits_i32(a * 10000 + b * 100 + c),
            },
        },
    }
}

fn date_key_chars(year: &Vec<char>, month: &Vec<char>, day: &Vec<char>) -> (r: Option<i32>)
    requires
        date_key_in_range(year@, month@, day@),
    ensures
        match r {
            Some(k) => date_key_value(year@, month@, day@) == Some(k as int),
            None => date_key_value(year@, month@, day@) is None,
        },
{
    let a = match parse_i32_chars(year) {
        Some(a) => a,
        None => return None,
    };
    let ya = a * 10000;
    let b = match parse_i32_chars(month) {
        Some(b) => b,
        None => return None,
    };
    let mb = b * 100;
    let ym = ya + mb;
    let c = match parse_i32_chars(day) {
        Some(c) => c,
        None => return None,
    };
    Some(ym + c)
}

/// The date key `year * 10000 + month * 100 + day` of three numbers given as
/// text; nothing when one of them is not an `i32`.
pub fn date_key(year: &str, month: &str, day: &str) -> (r: Option<i32>)
    requires
        date_key_in_range(year@, month@, day@),
    ensures
        match r {
            Some(k) => date_key_value(year@, month@, day@) == Some(k as int),
            None => date_key_value(year@, month@, day@) is None,
        },
{
    let y = chars_of(year);
    let m = chars_of(month);
    let d = chars_of(day);
    date_key_chars(&y, &m, &d)
}

/// The date at the start of a time stamp: the first word after trimming,
/// with `T` read as a space.
pub open spec fn date_token(value: Seq<char>) -> Option<Seq<char>> {
    first_word(replace_char(trim(value), 'T', ' '))
}

/// Year, month and day, as text, of the date at the start of a time stamp:
/// `YYYY-MM-DD` (a four-byte first field), `DD-MM-YYYY` (any other first
/// field) or `DD.MM.YYYY`.
pub open spec fn date_fields(value: Seq<char>) -> Option<(Seq<char>, Seq<char>, Seq<char>)> {
    match date_token(value) {
        None => None,
        Some(d) => {
            let dash = split_on(d, '-');
            let dot = split_on(d, '.');
            if d.contains('-') && dash.len() == 3 {
                if encode_utf8(dash[0]).len() == 4 {
                    Some((dash[0], dash[1], dash[2]))
                } else {
                    Some((dash[2], dash[1], dash[0]))
                }
            } else if d.contains('.') && dot.len() == 3 {
                Some((dot[2], dot[1], dot[0]))
            } else {
                None
            }
        },
    }
}

/// The date key of the date at the start of a time stamp, if it has one.
pub open spec fn onset_key(value: Seq<char>) -> Option<int> {
    match date_fields(value) {
        Some((y, m, d)) => date_key_value(y, m, d),
        None => None,
    }
}

/// Whether computing the date key of a time stamp stays within `i32`.
pub open spec fn onset_in_range(value: Seq<char>) -> bool {
    match date_fields(value) {
        Some((y, m, d)) => date_key_in_range(y, m, d),
        None => true,
    }
}

fn date_fields_chars(value: &Vec<char>) -> (r: Option<(Vec<char>, Vec<char>, Vec<char>)>)
    ensures
        match r {
            Some((y, m, d)) => date_fields(value@) == Some((y@, m@, d@)),
            None => date_fields(value@) is None,
        },
{
    let t = trim_chars(value);
    let rep = replace_char_chars(&t, 'T', ' ');
    let date = match first_word_chars(&rep) {
        Some(w) => w,
        None => return None,
    };
    if contains_char(&date, '-') {
        let parts = split_chars(&date, '-');
        if parts.len() == 3 {
            let p0 = copy_chars(&parts[0]);
            let p1 = copy_chars(&parts[1]);
            let p2 = copy_chars(&parts[2]);
            if utf8_len_is(&parts[0], 4) {
                return Some((p0, p1, p2));
            }
            return Some((p2, p1, p0));
        }
    }
    if contains_char(&date, '.') {
        let parts = split_chars(&date, '.');
        if parts.len() == 3 {
            let p0 = copy_chars(&parts[0]);
            let p1 = copy_chars(&parts[1]);
            let p2 = copy_chars(&parts[2]);
            return Some((p2, p1, p0));
        }
    }
    None
}

/// Whether the date key of the time stamp `value` can be computed within
/// `i32`; `alert_date_key` and the functions that call it need it.
pub fn onset_key_in_range(value: &str) -> (r: bool)
    ensures
        r == onset_in_range(value@),
{
    let v = chars_of(value);
    match date_fields_chars(&v) {
        None => true,
        Some((y, m, d)) => {
            let a = match parse_i32_chars(&y) {
                Some(a) => a as i64,
                None => return true,
            };
            let ya = a * 10000;
            if ya < -2147483648 || ya > 2147483647 {
                return false;
            }
            let b = match parse_i32_chars(&m) {
                Some(b) => b as i64,
                None => return true,
            };
            let mb = b * 100;
            if mb < -2147483648 || mb > 2147483647 {
                return false;
            }
            let ym = ya + mb;
            if ym < -2147483648 || ym > 2147483647 {
                return false;
            }
            let c = match parse_i32_chars(&d) {
                Some(c) => c as i64,
                None => return true,
            };
            let s = ym + c;
            -2147483648 <= s && s <= 2147483647
        },
    }
}

/// The date key (`year * 10000 + month * 100 + day`) of the date at the start
/// of a time stamp such as `2026-02-15T06:00:00+01:00` or `15.02.2026`.
pub fn alert_date_key(value: &str) -> (r: Option<i32>)
    requires
        onset_in_range(value@),
    ensures
        match r {
            Some(k) => onset_key(value@) == Some(k as int),
            None => onset_key(value@) is None,
        },
{
    let v = chars_of(value);
    match date_fields_chars(&v) {
        None => None,
        Some((y, m, d)) => date_key_chars(&y, &m, &d),
    }
}

/// Whether a warning starts today or tomorrow, given the date keys of both
/// days; a warning without a readable start date counts as current.
pub open spec fn in_window(a: AlertModel, today_key: int, tomorrow_key: int) -> bool {
    match onset_key(a.onset) {
        None => true,
        Some(k) => today_key <= k <= tomorrow_key,
    }
}

/// Whether the warning starts today or tomorrow (by their date keys); one
/// without a readable start date counts as current.
pub fn alert_starts_today_or_tomorrow(alert: &Alert, today_key: i32, tomorrow_key: i32) -> (r:
    bool)
    requires
        onset_in_range(alert.onset@),
    ensures
        r == in_window(alert@, today_key as int, tomorrow_key as int),
{
    match alert_date_key(alert.onset.as_str()) {
        None => true,
        Some(k) => today_key <= k && k <= tomorrow_key,
    }
}

/// A text trimmed, lowercased and with its words joined by single spaces.
pub open spec fn normalized(s: Seq<char>) -> Seq<char> {
    squeeze(lowercase(trim(s)))
}

/// `value` trimmed, lowercased, and with its words joined by single spaces.
pub fn normalize_alert_key(value: &str) -> (r: String)
    ensures
        r@ == normalized(value@),
{
    let v = chars_of(value);
    let t = trim_chars(&v);
    let ts = string_from_chars(&t);
    let lower = to_lowercase_str(ts.as_str());
    let lv = chars_of(lower.as_str());
    let sq = squeeze_chars(&lv);
    string_from_chars(&sq)
}

/// The event a warning is about: its event name when that has a
/// non-blank text, its headline otherwise.
pub open spec fn event_text(a: AlertModel) -> Seq<char> {
    match a.event_de {
        Some(e) => if trim(e).len() > 0 {
            e
        } else {
            a.headline_de
        },
        None => a.headline_de,
    }
}

/// The group of a warning: its normalized event and severity, joined by `|`.
pub open spec fn group_key(a: AlertModel) -> Seq<char> {
    normalized(event_text(a)) + seq!['|'] + match a.severity {
        Some(s) => normalized(s),
        None => seq![],
    }
}

fn group_key_chars(alert: &Alert) -> (r: Vec<char>)
    ensures
        r@ == group_key(alert@),
{
    let use_event = match &alert.event_de {
        Some(e) => {
            let ev = chars_of(e.as_str());
            let t = trim_chars(&ev);
            t.len() > 0
        },
        None => false,
    };
    let event: &str = if use_event {
        match &alert.event_de {
            Some(e) => e.as_str(),
            None => alert.headline_de.as_str(),
        }
    } else {
        alert.headline_de.as_str()
    };
    assert(event@ == event_text(alert@));
    let norm = normalize_alert_key(event);
    let mut r = chars_of(norm.as_str());
    r.push('|');
    match &alert.severity {
        Some(s) => {
            let ns = normalize_alert_key(s.as_str());
            let nv = chars_of(ns.as_str());
            crate::text::append_chars(&mut r, &nv);
        },
        None => {},
    }
    assert(r@ =~= group_key(alert@));
    r
}

/// The group of a warning: its normalized event (or headline) and its
/// normalized severity, joined by `|`.
pub fn alert_group_key(alert: &Alert) -> (r: String)
    ensures
        r@ == group_key(alert@),
{
    let k = group_key_chars(alert);
    string_from_chars(&k)
}

/// The group keys of a list of warnings.
pub open spec fn group_keys(s: Seq<AlertModel>) -> Seq<Seq<char>> {
    s.map_values(|a: AlertModel| group_key(a))
}

/// The warnings that start today or tomorrow, the first of each group only,
/// in their order.
pub open spec fn unique_in_window(s: Seq<AlertModel>, today_key: int, tomorrow_key: int) -> Seq<
    AlertModel,
>
    decreases s.len(),
{
    if s.len() == 0 {
        seq![]
    } else {
        let p = unique_in_window(s.drop_last(), today_key, tomorrow_key);
        let a = s.last();
        if in_window(a, today_key, tomorrow_key) && !group_keys(p).contains(group_key(a)) {
            p.push(a)
        } else {
            p
        }
    }
}

/// The warnings of a list, by the characters of their fields.
pub open spec fn alerts_view(s: Seq<Alert>) -> Seq<AlertModel> {
    s.map_values(|a: Alert| a@)
}

/// Whether every warning's start date gives a date key within `i32`.
pub open spec fn onsets_in_range(s: Seq<Alert>) -> bool {
    forall|i: int| 0 <= i < s.len() ==> onset_in_range(#[trigger] s[i].onset@)
}

/// The characters of each of a list of texts.
pub open spec fn key_views(keys: Seq<Vec<char>>) -> Seq<Seq<char>> {
    keys.map_values(|v: Vec<char>| v@)
}

fn contains_key(keys: &Vec<Vec<char>>, k: &Vec<char>) -> (r: bool)
    ensures
        r == key_views(keys@).contains(k@),
{
    let n = keys.len();
    let mut i: usize = 0;
    while i < n
        invariant
            i <= n,
            n == keys@.len(),
            forall|j: int| 0 <= j < i ==> keys@[j]@ != k@,
        decreases n - i,
    {
        if same_chars(&keys[i], k) {
            assert(key_views(keys@)[i as int] == k@);
            return true;
        }
        i = i + 1;
    }
    proof {
        if key_views(keys@).contains(k@) {
            let kv = key_views(keys@);
            let j = choose|j: int| 0 <= j < kv.len() && #[trigger] kv[j] == k@;
            assert(keys@[j]@ == k@);
        }
    }
    false
}

/// The warnings that start today or tomorrow (by the date keys of both
/// days), keeping only the first warning of each group, in their order.
pub fn unique_alerts(alerts: &[Alert], today_key: i32, tomorrow_key: i32) -> (r: Vec<Alert>)
    requires
        onsets_in_range(alerts@),
    ensures
        alerts_view(r@) == unique_in_window(alerts_view(alerts@), today_key as int, tomorrow_key as int),
{
    let ghost src = alerts_view(alerts@);
    let mut out: Vec<Alert> = Vec::new();
    let mut seen: Vec<Vec<char>> = Vec::new();
    let n = alerts.len();
    let mut i: usize = 0;
    assert(src.take(0) =~= Seq::<AlertModel>::empty());
    while i < n
        invariant
            i <= n,
            n == alerts@.len(),
            src == alerts_view(alerts@),
            onsets_in_range(alerts@),
            alerts_view(out@) == unique_in_window(src.take(i as int), today_key as int, tomorrow_key as int),
            key_views(seen@) == group_keys(alerts_view(out@)),
        decreases n - i,
    {
        let a = &alerts[i];
        proof {
            let t = src.take(i + 1);
            assert(t.drop_last() =~= src.take(i as int));
            assert(t.last() == a@);
            assert(onset_in_range(alerts@[i as int].onset@));
        }
        if alert_starts_today_or_tomorrow(a, today_key, tomorrow_key) {
            let k = group_key_chars(a);
            if !contains_key(&seen, &k) {
                let ghost before_out = out@;
                let ghost before_seen = seen@;
                out.push(copy_alert(a));
                seen.push(k);
                proof {
                    assert(alerts_view(out@) =~= alerts_view(before_out).push(a@));
                    assert(key_views(seen@) =~= key_views(before_seen).push(k@));
                    assert(group_keys(alerts_view(out@)) =~= group_keys(alerts_view(before_out)).push(
                        group_key(a@),
                    ));
                }
            }
        }
        i = i + 1;
    }
    assert(src.take(n as int) =~= src);
    out
}

/// The rank of a severity level: extreme 4, severe 3, moderate 2, minor 1,
/// anything else 0.
pub open spec fn rank(value: Option<Seq<char>>) -> int {
    match value {
        Some(s) => if s == "extreme"@ {
            4
        } else if s == "severe"@ {
            3
        } else if s == "moderate"@ {
            2
        } else if s == "minor"@ {
            1
        } else {
            0
        },
        None => 0,
    }
}

fn is_text(v: &Vec<char>, lit: &str) -> (r: bool)
    ensures
        r == (v@ == lit@),
{
    let l = chars_of(lit);
    same_chars(v, &l)
}

/// The rank of a severity level: extreme 4, severe 3, moderate 2, minor 1,
/// anything else 0.
pub fn severity_rank(value: Option<&str>) -> (r: i32)
    ensures
        r == rank(
            match value {
                Some(s) => Some(s@),
                None => None,
            },
        ),
{
    match value {
        Some(s) => {
            let v = chars_of(s);
            if is_text(&v, "extreme") {
                4
            } else if is_text(&v, "severe") {
                3
            } else if is_text(&v, "moderate") {
                2
            } else if is_text(&v, "minor") {
                1
            } else {
                0
            }
        },
        None => 0,
    }
}

/// The German label of a severity level.
pub open spec fn severity_label_text(value: Seq<char>) -> Seq<char> {
    if value == "extreme"@ {
        "extrem"@
    } else if value == "severe"@ {
        "schwer"@
    } else if value == "moderate"@ {
        "moderat"@
    } else if value == "minor"@ {
        "gering"@
    } else {
        "Hinweis"@
    }
}

/// The German label of a severity level; `Hinweis` for anything else.
pub fn severity_label(value: &str) -> (r: &'static str)
    ensures
        r@ == severity_label_text(value@),
{
    let v = chars_of(value);
    if is_text(&v, "extreme") {
        "extrem"
    } else if is_text(&v, "severe") {
        "schwer"
    } else if is_text(&v, "moderate") {
        "moderat"
    } else if is_text(&v, "minor") {
        "gering"
    } else {
        "Hinweis"
    }
}

/// No two of the warnings that `unique_alerts` keeps belong to the same group.
pub proof fn lemma_unique_groups_distinct(s: Seq<AlertModel>, today_key: int, tomorrow_key: int)
    ensures
        forall|i: int, j: int|
            0 <= i < j < unique_in_window(s, today_key, tomorrow_key).len() ==> group_key(
                #[trigger] unique_in_window(s, today_key, tomorrow_key)[i],
            ) != group_key(#[trigger] unique_in_window(s, today_key, tomorrow_key)[j]),
    decreases s.len(),
{
    if s.len() > 0 {
        let p = unique_in_window(s.drop_last(), today_key, tomorrow_key);
        lemma_unique_groups_distinct(s.drop_last(), today_key, tomorrow_key);
        let r = unique_in_window(s, today_key, tomorrow_key);
        assert forall|i: int, j: int| 0 <= i < j < r.len() implies group_key(#[trigger] r[i])
            != group_key(#[trigger] r[j]) by {
            if j < p.len() {
                assert(r[i] == p[i] && r[j] == p[j]);
            } else {
                assert(r[i] == p[i]);
                assert(group_keys(p)[i] == group_key(p[i]));
            }
        }
    }
}

/// Every warning that `unique_alerts` keeps comes from its input and starts
/// today or tomorrow (or has no readable start date).
pub proof fn lemma_unique_members(s: Seq<AlertModel>, today_key: int, tomorrow_key: int)
    ensures
        forall|i: int|
            0 <= i < unique_in_window(s, today_key, tomorrow_key).len() ==> {
                &&& s.contains(#[trigger] unique_in_window(s, today_key, tomorrow_key)[i])
                &&& in_window(unique_in_window(s, today_key, tomorrow_key)[i], today_key, tomorrow_key)
            },
    decreases s.len(),
{
    if s.len() > 0 {
        let t = s.drop_last();
        let p = unique_in_window(t, today_key, tomorrow_key);
        lemma_unique_members(t, today_key, tomorrow_key);
        let r = unique_in_window(s, today_key, tomorrow_key);
        assert forall|i: int| 0 <= i < r.len() implies s.contains(#[trigger] r[i]) && in_window(
            r[i],
            today_key,
            tomorrow_key,
        ) by {
            if i < p.len() {
                assert(r[i] == p[i]);
                let k = choose|k: int| 0 <= k < t.len() && t[k] == p[i];
                assert(s[k] == t[k]);
            } else {
                assert(r[i] == s[s.len() - 1]);
            }
        }
    }
}

/// Every group of a warning that starts today or tomorrow is represented
/// among the warnings that `unique_alerts` keeps.
pub proof fn lemma_unique_covers_groups(s: Seq<AlertModel>, today_key: int, tomorrow_key: int)
    ensures
        forall|i: int|
            0 <= i < s.len() && in_window(#[trigger] s[i], today_key, tomorrow_key) ==> group_keys(
                unique_in_window(s, today_key, tomorrow_key),
            ).contains(group_key(s[i])),
    decreases s.len(),
{
    if s.len() > 0 {
        let t = s.drop_last();
        let p = unique_in_window(t, today_key, tomorrow_key);
        lemma_unique_covers_groups(t, today_key, tomorrow_key);
        let r = unique_in_window(s, today_key, tomorrow_key);
        assert forall|i: int|
            0 <= i < s.len() && in_window(#[trigger] s[i], today_key, tomorrow_key) implies group_keys(
            r).contains(group_key(s[i])) by {
            if i < t.len() {
                assert(t[i] == s[i]);
                let k = choose|k: int| 0 <= k < group_keys(p).len() && group_keys(p)[k] == group_key(t[i]);
                if r.len() > p.len() {
                    assert(r == p.push(s.last()));
                    assert(group_keys(r)[k] == group_keys(p)[k]);
                }
            } else {
                if r.len() > p.len() {
                    assert(r == p.push(s.last()));
                    assert(group_keys(r)[p.len() as int] == group_key(s[i]));
                } else {
                    assert(r == p);
                }
            }
        }
    }
}

/// Where warnings are shown for: a place as Bright Sky reports it.
pub struct AlertLocation {
    pub name: Option<String>,
    pub district: Option<String>,
    pub state: Option<String>,
}

/// The warnings Bright Sky reports for a place or for all of Germany.
pub struct AlertsResponse {
    pub alerts: Vec<Alert>,
    pub location: Option<AlertLocation>,
}

/// The warnings shown: the local ones under their title, and the most
/// severe ones of the rest of Germany.
pub struct AlertSelection {
    pub local_title: String,
    pub local: Vec<Alert>,
    pub national: Vec<Alert>,
}

/// At most the first `n` elements of `s`.
pub open spec fn first_n<A>(s: Seq<A>, n: int) -> Seq<A> {
    if s.len() <= n {
        s
    } else {
        s.take(n)
    }
}

/// The warnings of `s` whose group is not among `keys`, in their order.
pub open spec fn outside_groups(s: Seq<AlertModel>, keys: Seq<Seq<char>>) -> Seq<AlertModel>
    decreases s.len(),
{
    if s.len() == 0 {
        seq![]
    } else {
        let p = outside_groups(s.drop_last(), keys);
        if keys.contains(group_key(s.last())) {
            p
        } else {
            p.push(s.last())
        }
    }
}

/// The warnings of `s` of severity rank `r`, the latest first.
pub open spec fn rank_bucket(s: Seq<AlertModel>, r: int) -> Seq<AlertModel>
    decreases s.len(),
{
    if s.len() == 0 {
        seq![]
    } else if rank(s.last().severity) == r {
        seq![s.last()] + rank_bucket(s.drop_last(), r)
    } else {
        rank_bucket(s.drop_last(), r)
    }
}

/// The warnings of `s` sorted by severity rank, stably, and then reversed:
/// the highest rank first, and within one rank the latest first.
pub open spec fn by_rank_desc(s: Seq<AlertModel>) -> Seq<AlertModel> {
    rank_bucket(s, 4) + rank_bucket(s, 3) + rank_bucket(s, 2) + rank_bucket(s, 1) + rank_bucket(
        s,
        0,
    )
}

/// The title of the local warnings: the reported place name, or a general one.
pub open spec fn local_title_text(location: Option<Option<Seq<char>>>) -> Seq<char> {
    match location {
        Some(Some(name)) => name,
        _ => "gewählter Ort"@,
    }
}

fn keys_of(s: &Vec<Alert>) -> (r: Vec<Vec<char>>)
    ensures
        key_views(r@) == group_keys(alerts_view(s@)),
{
    let mut r: Vec<Vec<char>> = Vec::new();
    let n = s.len();
    let mut i: usize = 0;
    while i < n
        invariant
            i <= n,
            n == s@.len(),
            key_views(r@) == group_keys(alerts_view(s@.take(i as int))),
        decreases n - i,
    {
        let k = group_key_chars(&s[i]);
        let ghost before = r@;
        r.push(k);
        proof {
            assert(key_views(r@) =~= key_views(before).push(k@));
            assert(alerts_view(s@.take(i + 1)) =~= alerts_view(s@.take(i as int)).push(s@[i as int]@));
            assert(group_keys(alerts_view(s@.take(i + 1))) =~= group_keys(alerts_view(s@.take(i as int))).push(group_key(s@[i as int]@)));
        }
        i = i + 1;
    }
    assert(s@.take(n as int) =~= s@);
    r
}

fn without_groups(s: &Vec<Alert>, keys: &Vec<Vec<char>>) -> (r: Vec<Alert>)
    ensures
        alerts_view(r@) == outside_groups(alerts_view(s@), key_views(keys@)),
        forall|a: AlertModel|
            #[trigger] alerts_view(r@).contains(a) <==> (alerts_view(s@).contains(a)
                && !key_views(keys@).contains(group_key(a))),
{
    proof {
        lemma_outside_groups_exact(alerts_view(s@), key_views(keys@));
    }
    let mut r: Vec<Alert> = Vec::new();
    let n = s.len();
    let mut i: usize = 0;
    assert(alerts_view(s@.take(0)) =~= Seq::<AlertModel>::empty());
    while i < n
        invariant
            i <= n,
            n == s@.len(),
            alerts_view(r@) == outside_groups(alerts_view(s@.take(i as int)), key_views(keys@)),
        decreases n - i,
    {
        let k = group_key_chars(&s[i]);
        proof {
            let t = alerts_view(s@.take(i + 1));
            assert(t.drop_last() =~= alerts_view(s@.take(i as int)));
            assert(t.last() == s@[i as int]@);
        }
        if !contains_key(keys, &k) {
            let ghost before = r@;
            r.push(copy_alert(&s[i]));
            assert(alerts_view(r@) =~= alerts_view(before).push(s@[i as int]@));
        }
        i = i + 1;
    }
    assert(s@.take(n as int) =~= s@);
    r
}

fn push_bucket(out: &mut Vec<Alert>, s: &Vec<Alert>, r: i32)
    ensures
        alerts_view(final(out)@) == alerts_view(old(out)@) + rank_bucket(alerts_view(s@), r as int),
{
    let n = s.len();
    let mut k: usize = n;
    let ghost base = alerts_view(out@);
    assert(s@.take(n as int) =~= s@);
    assert(rank_bucket(Seq::<AlertModel>::empty(), r as int) =~= Seq::<AlertModel>::empty());
    while k > 0
        invariant
            k <= n,
            n == s@.len(),
            base + rank_bucket(alerts_view(s@), r as int) == alerts_view(out@) + rank_bucket(
                alerts_view(s@.take(k as int)),
                r as int,
            ),
        decreases k,
    {
        let a = &s[k - 1];
        let sev: Option<&str> = match &a.severity {
            Some(v) => Some(v.as_str()),
            None => None,
        };
        let ar = severity_rank(sev);
        let ghost before = alerts_view(out@);
        proof {
            let t = alerts_view(s@.take(k as int));
            assert(t.drop_last() =~= alerts_view(s@.take(k - 1)));
            assert(t.last() == a@);
            assert(a@.severity == match sev {
                Some(v) => Some(v@),
                None => None,
            });
        }
        if ar == r {
            out.push(copy_alert(a));
            assert(alerts_view(out@) =~= before.push(a@));
            assert(before + (seq![a@] + rank_bucket(alerts_view(s@.take(k - 1)), r as int)) =~= before.push(a@) + rank_bucket(alerts_view(s@.take(k - 1)), r as int));
        }
        k = k - 1;
    }
    assert(alerts_view(s@.take(0)) =~= Seq::<AlertModel>::empty());
    assert(alerts_view(out@) + Seq::<AlertModel>::empty() =~= alerts_view(out@));
}

fn first_alerts(s: &Vec<Alert>, n: usize) -> (r: Vec<Alert>)
    ensures
        alerts_view(r@) == first_n(alerts_view(s@), n as int),
{
    let m = if s.len() < n {
        s.len()
    } else {
        n
    };
    let mut r: Vec<Alert> = Vec::new();
    let mut i: usize = 0;
    while i < m
        invariant
            i <= m,
            m <= s@.len(),
            alerts_view(r@) == alerts_view(s@).take(i as int),
        decreases m - i,
    {
        let ghost before = r@;
        r.push(copy_alert(&s[i]));
        assert(alerts_view(r@) =~= alerts_view(before).push(s@[i as int]@));
        assert(alerts_view(r@) =~= alerts_view(s@).take(i + 1));
        i = i + 1;
    }
    assert(alerts_view(s@).take(s@.len() as int) =~= alerts_view(s@));
    r
}

/// The warnings to show: the local ones that start today or tomorrow, one
/// per group, at most six; and of the remaining groups for all of Germany,
/// at most eight, the most severe first.
pub fn select_alerts(local: &AlertsResponse, national: &AlertsResponse, today_key: i32, tomorrow_key: i32) -> (r: AlertSelection)
    requires
        onsets_in_range(local.alerts@),
        onsets_in_range(national.alerts@),
    ensures
        r.local_title@ == local_title_text(
            match local.location {
                Some(l) => Some(opt_view(l.name)),
                None => None,
            },
        ),
        alerts_view(r.local@) == first_n(
            unique_in_window(alerts_view(local.alerts@), today_key as int, tomorrow_key as int),
            6,
        ),
        alerts_view(r.national@) == first_n(
            by_rank_desc(
                outside_groups(
                    unique_in_window(alerts_view(national.alerts@), today_key as int, tomorrow_key as int),
                    group_keys(
                        unique_in_window(alerts_view(local.alerts@), today_key as int, tomorrow_key as int),
                    ),
                ),
            ),
            8,
        ),
{
    let title: String = match &local.location {
        Some(l) => match &l.name {
            Some(n) => n.clone(),
            None => string_from_chars(&chars_of("gewählter Ort")),
        },
        None => string_from_chars(&chars_of("gewählter Ort")),
    };
    let local_all = unique_alerts(local.alerts.as_slice(), today_key, tomorrow_key);
    let local_keys = keys_of(&local_all);
    let national_all = unique_alerts(national.alerts.as_slice(), today_key, tomorrow_key);
    let rest = without_groups(&national_all, &local_keys);
    let mut ordered: Vec<Alert> = Vec::new();
    push_bucket(&mut ordered, &rest, 4);
    push_bucket(&mut ordered, &rest, 3);
    push_bucket(&mut ordered, &rest, 2);
    push_bucket(&mut ordered, &rest, 1);
    push_bucket(&mut ordered, &rest, 0);
    assert(alerts_view(ordered@) =~= by_rank_desc(alerts_view(rest@)));
    AlertSelection {
        local_title: title,
        local: first_alerts(&local_all, 6),
        national: first_alerts(&ordered, 8),
    }
}

/// What the card of one warning shows.
pub struct AlertCard {
    pub severity: String,
    pub severity_label: String,
    pub headline: String,
    pub description: String,
    pub instruction: Option<String>,
    pub event: Option<String>,
    pub onset: String,
    pub expires: Option<String>,
}

/// The severity of a warning, `info` when it has none.
pub open spec fn severity_or_info(a: AlertModel) -> Seq<char> {
    match a.severity {
        Some(s) => s,
        None => "info"@,
    }
}

/// The instruction of a warning, trimmed, when it has a non-blank one.
pub open spec fn instruction_text(a: AlertModel) -> Option<Seq<char>> {
    match a.instruction_de {
        Some(i) => if trim(i).len() > 0 {
            Some(trim(i))
        } else {
            None
        },
        None => None,
    }
}

/// The card of a warning: its severity (or `info`) and the German label of
/// that, its headline, its description trimmed, its non-blank instruction
/// trimmed, its event, and when it starts and ends as short times.
pub fn alert_card(alert: &Alert) -> (r: AlertCard)
    ensures
        r.severity@ == severity_or_info(alert@),
        r.severity_label@ == severity_label_text(severity_or_info(alert@)),
        r.headline@ == alert.headline_de@,
        r.description@ == trim(alert.description_de@),
        opt_view(r.instruction) == instruction_text(alert@),
        opt_view(r.event) == alert@.event_de,
        r.onset@ == crate::labels::short_time_text(alert.onset@),
        opt_view(r.expires) == match alert@.expires {
            Some(e) => Some(crate::labels::short_time_text(e)),
            None => None,
        },
{
    let severity: String = match &alert.severity {
        Some(s) => s.clone(),
        None => string_from_chars(&chars_of("info")),
    };
    let label = severity_label(severity.as_str());
    let description = string_from_chars(&trim_chars(&chars_of(alert.description_de.as_str())));
    let instruction: Option<String> = match &alert.instruction_de {
        Some(i) => {
            let t = trim_chars(&chars_of(i.as_str()));
            if t.len() > 0 {
                Some(string_from_chars(&t))
            } else {
                None
            }
        },
        None => None,
    };
    let expires: Option<String> = match &alert.expires {
        Some(e) => Some(crate::labels::short_time(e.as_str())),
        None => None,
    };
    AlertCard {
        severity_label: string_from_chars(&chars_of(label)),
        severity,
        headline: alert.headline_de.clone(),
        description,
        instruction,
        event: copy_opt(&alert.event_de),
        onset: crate::labels::short_time(alert.onset.as_str()),
        expires,
    }
}

proof fn lemma_rank_bucket_ranks(s: Seq<AlertModel>, r: int)
    ensures
        forall|i: int| 0 <= i < rank_bucket(s, r).len() ==> rank(
            (#[trigger] rank_bucket(s, r)[i]).severity,
        ) == r,
    decreases s.len(),
{
    if s.len() > 0 {
        lemma_rank_bucket_ranks(s.drop_last(), r);
        let b = rank_bucket(s.drop_last(), r);
        if rank(s.last().severity) == r {
            assert forall|i: int| 0 <= i < rank_bucket(s, r).len() implies rank(
                (#[trigger] rank_bucket(s, r)[i]).severity,
            ) == r by {
                if i > 0 {
                    assert(rank_bucket(s, r)[i] == b[i - 1]);
                }
            }
        }
    }
}

/// The warnings shown for all of Germany come in order of severity, the
/// most severe first.
pub proof fn lemma_by_rank_desc_ordered(s: Seq<AlertModel>)
    ensures
        forall|i: int, j: int|
            0 <= i < j < by_rank_desc(s).len() ==> rank((#[trigger] by_rank_desc(s)[i]).severity)
                >= rank((#[trigger] by_rank_desc(s)[j]).severity),
{
    let b4 = rank_bucket(s, 4);
    let b3 = rank_bucket(s, 3);
    let b2 = rank_bucket(s, 2);
    let b1 = rank_bucket(s, 1);
    let b0 = rank_bucket(s, 0);
    lemma_rank_bucket_ranks(s, 4);
    lemma_rank_bucket_ranks(s, 3);
    lemma_rank_bucket_ranks(s, 2);
    lemma_rank_bucket_ranks(s, 1);
    lemma_rank_bucket_ranks(s, 0);
    let o = by_rank_desc(s);
    let l4 = b4.len() as int;
    let l3 = l4 + b3.len();
    let l2 = l3 + b2.len();
    let l1 = l2 + b1.len();
    assert forall|i: int| 0 <= i < o.len() implies rank((#[trigger] o[i]).severity) == if i < l4 {
        4int
    } else if i < l3 {
        3int
    } else if i < l2 {
        2int
    } else if i < l1 {
        1int
    } else {
        0int
    } by {
        if i < l4 {
            assert(o[i] == b4[i]);
        } else if i < l3 {
            assert(o[i] == b3[i - l4]);
        } else if i < l2 {
            assert(o[i] == b2[i - l3]);
        } else if i < l1 {
            assert(o[i] == b1[i - l2]);
        } else {
            assert(o[i] == b0[i - l1]);
        }
    }
}

proof fn lemma_outside_groups_members(s: Seq<AlertModel>, keys: Seq<Seq<char>>)
    ensures
        forall|i: int| 0 <= i < outside_groups(s, keys).len() ==> {
            &&& !keys.contains(group_key(#[trigger] outside_groups(s, keys)[i]))
            &&& s.contains(outside_groups(s, keys)[i])
        },
    decreases s.len(),
{
    if s.len() > 0 {
        let t = s.drop_last();
        lemma_outside_groups_members(t, keys);
        let p = outside_groups(t, keys);
        let o = outside_groups(s, keys);
        assert forall|i: int| 0 <= i < o.len() implies !keys.contains(group_key(#[trigger] o[i]))
            && s.contains(o[i]) by {
            if i < p.len() {
                assert(o[i] == p[i]);
                let k = choose|k: int| 0 <= k < t.len() && t[k] == p[i];
                assert(s[k] == t[k]);
            } else {
                assert(o[i] == s[s.len() - 1]);
            }
        }
    }
}

/// A warning is left out for the groups `keys` exactly when its own group
/// key (event and severity) is one of them: `outside_groups` holds every
/// warning of `s` whose group key is not among `keys`, and nothing else.
pub proof fn lemma_outside_groups_exact(s: Seq<AlertModel>, keys: Seq<Seq<char>>)
    ensures
        forall|a: AlertModel|
            #[trigger] outside_groups(s, keys).contains(a) <==> (s.contains(a) && !keys.contains(
                group_key(a),
            )),
    decreases s.len(),
{
    lemma_outside_groups_members(s, keys);
    if s.len() > 0 {
        let t = s.drop_last();
        lemma_outside_groups_exact(t, keys);
        let p = outside_groups(t, keys);
        let o = outside_groups(s, keys);
        assert forall|a: AlertModel| s.contains(a) && !keys.contains(group_key(a)) implies #[trigger] o.contains(a) by {
            let k = choose|k: int| 0 <= k < s.len() && s[k] == a;
            if k < t.len() {
                assert(t[k] == a);
                assert(t.contains(a));
                assert(p.contains(a));
                let j = choose|j: int| 0 <= j < p.len() && p[j] == a;
                assert(o[j] == p[j]);
            } else {
                assert(o[o.len() - 1] == a);
            }
        }
        assert forall|a: AlertModel| #[trigger] o.contains(a) implies s.contains(a) && !keys.contains(group_key(a)) by {
            let j = choose|j: int| 0 <= j < o.len() && o[j] == a;
            assert(!keys.contains(group_key(o[j])) && s.contains(o[j]));
        }
    } else {
        assert(outside_groups(s, keys) =~= Seq::<AlertModel>::empty());
    }
}

proof fn lemma_rank_bucket_members(s: Seq<AlertModel>, r: int)
    ensures
        forall|i: int| 0 <= i < rank_bucket(s, r).len() ==> s.contains(
            #[trigger] rank_bucket(s, r)[i],
        ),
    decreases s.len(),
{
    if s.len() > 0 {
        let t = s.drop_last();
        lemma_rank_bucket_members(t, r);
        let b = rank_bucket(t, r);
        let o = rank_bucket(s, r);
        assert forall|i: int| 0 <= i < o.len() implies s.contains(#[trigger] o[i]) by {
            let j = if rank(s.last().severity) == r {
                i - 1
            } else {
                i
            };
            if j < 0 {
                assert(o[i] == s[s.len() - 1]);
            } else {
                assert(o[i] == b[j]);
                let k = choose|k: int| 0 <= k < t.len() && t[k] == b[j];
                assert(s[k] == t[k]);
            }
        }
    }
}

/// The warnings shown for all of Germany: at most eight, each one of the
/// nationwide warnings, none of a group among the local warnings, and in
/// order of severity, the most severe first.
pub proof fn lemma_national_selection(
    national: Seq<AlertModel>,
    local: Seq<AlertModel>,
    today_key: int,
    tomorrow_key: int,
)
    ensures
        ({
            let keys = group_keys(unique_in_window(local, today_key, tomorrow_key));
            let shown = first_n(
                by_rank_desc(outside_groups(unique_in_window(national, today_key, tomorrow_key), keys)),
                8,
            );
            &&& shown.len() <= 8
            &&& forall|i: int| 0 <= i < shown.len() ==> !keys.contains(group_key(#[trigger] shown[i]))
            &&& forall|i: int| 0 <= i < shown.len() ==> national.contains(#[trigger] shown[i])
            &&& forall|i: int, j: int|
                0 <= i < j < shown.len() ==> rank((#[trigger] shown[i]).severity) >= rank(
                    (#[trigger] shown[j]).severity,
                )
        }),
{
    let keys = group_keys(unique_in_window(local, today_key, tomorrow_key));
    let u = unique_in_window(national, today_key, tomorrow_key);
    let c = outside_groups(u, keys);
    let o = by_rank_desc(c);
    let shown = first_n(o, 8);
    lemma_unique_members(national, today_key, tomorrow_key);
    lemma_outside_groups_members(u, keys);
    lemma_by_rank_desc_ordered(c);
    lemma_rank_bucket_members(c, 4);
    lemma_rank_bucket_members(c, 3);
    lemma_rank_bucket_members(c, 2);
    lemma_rank_bucket_members(c, 1);
    lemma_rank_bucket_members(c, 0);
    assert forall|i: int| 0 <= i < o.len() implies c.contains(#[trigger] o[i]) by {
        let l4 = rank_bucket(c, 4).len() as int;
        let l3 = l4 + rank_bucket(c, 3).len();
        let l2 = l3 + rank_bucket(c, 2).len();
        let l1 = l2 + rank_bucket(c, 1).len();
        if i < l4 {
            assert(o[i] == rank_bucket(c, 4)[i]);
        } else if i < l3 {
            assert(o[i] == rank_bucket(c, 3)[i - l4]);
        } else if i < l2 {
            assert(o[i] == rank_bucket(c, 2)[i - l3]);
        } else if i < l1 {
            assert(o[i] == rank_bucket(c, 1)[i - l2]);
        } else {
            assert(o[i] == rank_bucket(c, 0)[i - l1]);
        }
    }
    assert forall|i: int| 0 <= i < shown.len() implies !keys.contains(group_key(#[trigger] shown[i]))
        && national.contains(shown[i]) by {
        assert(shown[i] == o[i]);
        let k = choose|k: int| 0 <= k < c.len() && c[k] == o[i];
        let k2 = choose|k2: int| 0 <= k2 < u.len() && u[k2] == c[k];
        assert(u.contains(u[k2]));
    }
    assert forall|i: int, j: int| 0 <= i < j < shown.len() implies rank(
        (#[trigger] shown[i]).severity,
    ) >= rank((#[trigger] shown[j]).severity) by {
        assert(shown[i] == o[i] && shown[j] == o[j]);
    }
}

proof fn lemma_digits_free(s: Seq<char>)
    requires
        all_digits(s),
    ensures
        !s.contains('-'),
        !s.contains('T'),
        forall|i: int| 0 <= i < s.len() ==> !crate::text::is_white(#[trigger] s[i]),
        vstd::utf8::is_ascii_chars(s),
{
    assert forall|i: int| 0 <= i < s.len() implies !crate::text::is_white(#[trigger] s[i]) && s[i]
        != '-' && s[i] != 'T' && '\0' <= s[i] <= '\u{7f}' by {
        let u = s[i] as u32;
        assert(crate::text::is_digit(s[i]));
        assert(48 <= u <= 57);
        assert(!crate::text::is_white(s[i]));
        vstd::utf8::char_u32_cast(s[i], u);
        assert(s[i] != '-');
        assert(s[i] != 'T');
        assert('\0' <= s[i] <= '\u{7f}');
    }
}

/// A date written by `date_string` is read back by `alert_date_key` as the
/// date key that `js_date_key` gives for the same clock reading (years of
/// four digits, months counted from 0, days below 100).
pub proof fn lemma_date_string_key(year: u32, month: u32, day: u32)
    requires
        1000 <= year <= 9999,
        month <= 11,
        day <= 99,
    ensures
        onset_in_range(crate::calendar::date_text(year, month, day)),
        onset_key(crate::calendar::date_text(year, month, day)) == Some(
            crate::calendar::clock_date_key(year, month, day),
        ),
{
    let a = crate::text::padded_int_text(year as int, 4);
    let b = crate::text::padded_int_text(month + 1, 2);
    let c = crate::text::padded_int_text(day as int, 2);
    reveal_strlit("-");
    let s = crate::calendar::date_text(year, month, day);
    assert(s == a + seq!['-'] + b + seq!['-'] + c);
    crate::text::lemma_padded_facts(year as int, 4);
    crate::text::lemma_padded_facts(month + 1, 2);
    crate::text::lemma_padded_facts(day as int, 2);
    crate::text::lemma_decimal_facts(year as nat);
    lemma_digits_free(a);
    lemma_digits_free(b);
    lemma_digits_free(c);
    assert(a.len() == 4);
    vstd::utf8::is_ascii_chars_encode_utf8(a);
    assert forall|i: int| 0 <= i < s.len() implies !crate::text::is_white(#[trigger] s[i]) && s[i]
        != 'T' by {
        if i < a.len() {
            assert(s[i] == a[i]);
        } else if i == a.len() {
        } else if i < a.len() + 1 + b.len() {
            assert(s[i] == b[i - a.len() - 1]);
        } else if i == a.len() + 1 + b.len() {
        } else {
            assert(s[i] == c[i - a.len() - 2 - b.len()]);
        }
    }
    crate::text::lemma_trim_no_white(s);
    assert(replace_char(trim(s), 'T', ' ') =~= s);
    crate::text::lemma_first_word_no_white(s);
    assert(date_token(s) == Some(s));
    assert(s[a.len() as int] == '-');
    assert(s.contains('-'));
    crate::text::lemma_split_three(a, b, c, '-');
    assert(split_on(s, '-') == seq![a, b, c]);
    crate::text::lemma_parse_padded(year as int, 4);
    crate::text::lemma_parse_padded(month + 1, 2);
    crate::text::lemma_parse_padded(day as int, 2);
    assert(date_fields(s) == Some((a, b, c)));
}

proof fn lemma_rank_bucket_complete(s: Seq<AlertModel>, k: int)
    requires
        0 <= k < s.len(),
    ensures
        rank_bucket(s, rank(s[k].severity)).contains(s[k]),
    decreases s.len(),
{
    let r = rank(s[k].severity);
    let t = s.drop_last();
    if k == s.len() - 1 {
        assert(rank_bucket(s, r)[0] == s[k]);
    } else {
        assert(t[k] == s[k]);
        lemma_rank_bucket_complete(t, k);
        let b = rank_bucket(t, r);
        let j = choose|j: int| 0 <= j < b.len() && b[j] == s[k];
        if rank(s.last().severity) == r {
            assert(rank_bucket(s, r)[j + 1] == b[j]);
        } else {
            assert(rank_bucket(s, r)[j] == b[j]);
        }
    }
}

/// Ordering by severity loses no warning: every one of `s` is among the
/// ordered warnings.
pub proof fn lemma_by_rank_desc_complete(s: Seq<AlertModel>)
    ensures
        forall|k: int| 0 <= k < s.len() ==> by_rank_desc(s).contains(#[trigger] s[k]),
{
    let o = by_rank_desc(s);
    let l4 = rank_bucket(s, 4).len() as int;
    let l3 = l4 + rank_bucket(s, 3).len();
    let l2 = l3 + rank_bucket(s, 2).len();
    let l1 = l2 + rank_bucket(s, 1).len();
    assert forall|k: int| 0 <= k < s.len() implies o.contains(#[trigger] s[k]) by {
        lemma_rank_bucket_complete(s, k);
        let r = rank(s[k].severity);
        let b = rank_bucket(s, r);
        let j = choose|j: int| 0 <= j < b.len() && b[j] == s[k];
        if r == 4 {
            assert(o[j] == b[j]);
        } else if r == 3 {
            assert(o[l4 + j] == b[j]);
        } else if r == 2 {
            assert(o[l3 + j] == b[j]);
        } else if r == 1 {
            assert(o[l2 + j] == b[j]);
        } else {
            assert(o[l1 + j] == b[j]);
        }
    }
}

/// The texts of two dates compare as their clock date keys do.
#[verifier::spinoff_prover]
#[verifier::rlimit(40)]
proof fn lemma_date_text_clock_order(y1: u32, m1: u32, d1: u32, y2: u32, m2: u32, d2: u32)
    requires
        1000 <= y1 <= 9999,
        m1 <= 11,
        d1 <= 99,
        1000 <= y2 <= 9999,
        m2 <= 11,
        d2 <= 99,
    ensures
        crate::forecast::text_less(
            crate::calendar::date_text(y1, m1, d1),
            crate::calendar::date_text(y2, m2, d2),
        ) == (crate::calendar::clock_date_key(y1, m1, d1) < crate::calendar::clock_date_key(
            y2,
            m2,
            d2,
        )),
{
    let a1 = crate::text::padded_int_text(y1 as int, 4);
    let b1 = crate::text::padded_int_text(m1 + 1, 2);
    let c1 = crate::text::padded_int_text(d1 as int, 2);
    let a2 = crate::text::padded_int_text(y2 as int, 4);
    let b2 = crate::text::padded_int_text(m2 + 1, 2);
    let c2 = crate::text::padded_int_text(d2 as int, 2);
    reveal_strlit("-");
    let dash = seq!['-'];
    let s1 = crate::calendar::date_text(y1, m1, d1);
    let s2 = crate::calendar::date_text(y2, m2, d2);
    assert(s1 =~= a1 + (dash + (b1 + (dash + c1))));
    assert(s2 =~= a2 + (dash + (b2 + (dash + c2))));
    crate::text::lemma_padded_facts(y1 as int, 4);
    crate::text::lemma_padded_facts(m1 + 1, 2);
    crate::text::lemma_padded_facts(d1 as int, 2);
    crate::text::lemma_padded_facts(y2 as int, 4);
    crate::text::lemma_padded_facts(m2 + 1, 2);
    crate::text::lemma_padded_facts(d2 as int, 2);
    crate::text::lemma_decimal_facts(y1 as nat);
    crate::text::lemma_decimal_facts(y2 as nat);
    crate::text::lemma_decimal_facts((m1 + 1) as nat);
    crate::text::lemma_decimal_facts((m2 + 1) as nat);
    crate::text::lemma_decimal_facts(d1 as nat);
    crate::text::lemma_decimal_facts(d2 as nat);
    crate::forecast::lemma_digits_order(a1, a2);
    crate::forecast::lemma_digits_order(b1, b2);
    crate::forecast::lemma_digits_order(c1, c2);
    crate::forecast::lemma_text_less_concat(a1, a2, dash + (b1 + (dash + c1)), dash + (b2 + (dash
        + c2)));
    crate::forecast::lemma_text_less_concat(dash, dash, b1 + (dash + c1), b2 + (dash + c2));
    crate::forecast::lemma_text_less_concat(b1, b2, dash + c1, dash + c2);
    crate::forecast::lemma_text_less_concat(dash, dash, c1, c2);
    if a1 == a2 {
        assert(y1 == y2);
        if b1 == b2 {
            assert(m1 == m2);
        }
    }
}

/// Date keys order days as their texts do: of two dates written by
/// `date_string` (years of four digits, months counted from 0, days below
/// 100), the text before the other is the one with the smaller date key,
/// both the key of the clock reading and the key that `alert_date_key`
/// reads back from the text.
pub proof fn lemma_date_text_order(y1: u32, m1: u32, d1: u32, y2: u32, m2: u32, d2: u32)
    requires
        1000 <= y1 <= 9999,
        m1 <= 11,
        d1 <= 99,
        1000 <= y2 <= 9999,
        m2 <= 11,
        d2 <= 99,
    ensures
        crate::forecast::text_less(
            crate::calendar::date_text(y1, m1, d1),
            crate::calendar::date_text(y2, m2, d2),
        ) == (crate::calendar::clock_date_key(y1, m1, d1) < crate::calendar::clock_date_key(
            y2,
            m2,
            d2,
        )),
        crate::forecast::text_less(
            crate::calendar::date_text(y1, m1, d1),
            crate::calendar::date_text(y2, m2, d2),
        ) == (onset_key(crate::calendar::date_text(y1, m1, d1)).unwrap() < onset_key(
            crate::calendar::date_text(y2, m2, d2),
        ).unwrap()),
{
    lemma_date_string_key(y1, m1, d1);
    lemma_date_string_key(y2, m2, d2);
    lemma_date_text_clock_order(y1, m1, d1, y2, m2, d2);
}

} // verus!
