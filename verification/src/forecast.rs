//! Hourly forecast records grouped into the first five calendar days.
use vstd::prelude::*;
use crate::alerts::{copy_opt, opt_view};
use crate::text::{all_digits, chars_of, copy_chars, digits_value, same_chars, string_from_chars};

verus! {

/// What the daily summary reads of one hourly record; the measured amounts
/// themselves stay with the caller, which finds them again by the record's
/// position.
pub struct HourlyRecord {
    pub timestamp: String,
    pub condition: Option<String>,
    pub icon: Option<String>,
    pub precipitation_probability: Option<i64>,
    pub has_solar: bool,
    pub has_sunshine: bool,
}

/// An hourly record, by the characters of its texts.
pub struct HourlyModel {
    pub timestamp: Seq<char>,
    pub condition: Option<Seq<char>>,
    pub icon: Option<Seq<char>>,
    pub precipitation_probability: Option<i64>,
    pub has_solar: bool,
    pub has_sunshine: bool,
}

impl View for HourlyRecord {
    type V = HourlyModel;

    open spec fn view(&self) -> HourlyModel {
        HourlyModel {
            timestamp: self.timestamp@,
            condition: opt_view(self.condition),
            icon: opt_view(self.icon),
            precipitation_probability: self.precipitation_probability,
            has_solar: self.has_solar,
            has_sunshine: self.has_sunshine,
        }
    }
}

/// One day of the forecast: its records (by position) and what is counted
/// over them.
pub struct DayGroup {
    pub date: String,
    pub records: Vec<usize>,
    pub solar_count: usize,
    pub sunshine_count: usize,
    pub max_pop: Option<i64>,
    pub dominant_condition: Option<String>,
}

/// The records of a list, by their views.
pub open spec fn records_view(s: Seq<HourlyRecord>) -> Seq<HourlyModel> {
    s.map_values(|r: HourlyRecord| r@)
}

/// The day of a time stamp: its first ten characters.
pub open spec fn day_of(ts: Seq<char>) -> Seq<char> {
    if ts.len() <= 10 {
        ts
    } else {
        ts.take(10)
    }
}

/// Strict lexicographic order of texts by character code, the order of
/// `String` keys (UTF-8 byte order agrees with it).
pub open spec fn text_less(a: Seq<char>, b: Seq<char>) -> bool
    decreases a.len(),
{
    if a.len() == 0 {
        b.len() > 0
    } else if b.len() == 0 {
        false
    } else if a[0] != b[0] {
        (a[0] as u32) < (b[0] as u32)
    } else {
        text_less(a.drop_first(), b.drop_first())
    }
}

/// No text is before itself.
pub proof fn lemma_text_less_irreflexive(a: Seq<char>)
    ensures
        !text_less(a, a),
    decreases a.len(),
{
    if a.len() > 0 {
        lemma_text_less_irreflexive(a.drop_first());
    }
}

/// Of two different texts, one is before the other, and not both.
pub proof fn lemma_text_less_total(a: Seq<char>, b: Seq<char>)
    ensures
        a != b ==> (text_less(a, b) || text_less(b, a)),
        !(text_less(a, b) && text_less(b, a)),
    decreases a.len(),
{
    broadcast use vstd::utf8::char_u32_cast;

    if a.len() > 0 && b.len() > 0 {
        lemma_text_less_total(a.drop_first(), b.drop_first());
        if a[0] == b[0] && a.drop_first() == b.drop_first() {
            assert(a =~= seq![a[0]] + a.drop_first());
            assert(b =~= seq![b[0]] + b.drop_first());
        }
        if a[0] != b[0] {
            vstd::utf8::char_u32_cast(a[0], a[0] as u32);
            vstd::utf8::char_u32_cast(b[0], b[0] as u32);
        }
    } else if a.len() == 0 && b.len() == 0 {
        assert(a =~= b);
    }
}

/// The order of texts is transitive.
pub proof fn lemma_text_less_transitive(a: Seq<char>, b: Seq<char>, c: Seq<char>)
    requires
        text_less(a, b),
        text_less(b, c),
    ensures
        text_less(a, c),
    decreases a.len(),
{
    if a.len() > 0 && b.len() > 0 && c.len() > 0 {
        if a[0] == b[0] && b[0] == c[0] {
            lemma_text_less_transitive(a.drop_first(), b.drop_first(), c.drop_first());
        }
    }
}

proof fn lemma_text_less_skip(a: Seq<char>, b: Seq<char>, i: int)
    requires
        0 <= i <= a.len(),
        i <= b.len(),
        a.take(i) == b.take(i),
    ensures
        text_less(a, b) == text_less(a.skip(i), b.skip(i)),
    decreases i,
{
    if i > 0 {
        assert(a[0] == a.take(i)[0]);
        assert(b[0] == b.take(i)[0]);
        assert(a.drop_first().take(i - 1) =~= a.take(i).drop_first());
        assert(b.drop_first().take(i - 1) =~= b.take(i).drop_first());
        lemma_text_less_skip(a.drop_first(), b.drop_first(), i - 1);
        assert(a.drop_first().skip(i - 1) =~= a.skip(i));
        assert(b.drop_first().skip(i - 1) =~= b.skip(i));
    } else {
        assert(a.skip(0) =~= a);
        assert(b.skip(0) =~= b);
    }
}

/// Whether the text `a` comes before `b`.
pub fn text_less_chars(a: &Vec<char>, b: &Vec<char>) -> (r: bool)
    ensures
        r == text_less(a@, b@),
{
    let n = a.len();
    let m = b.len();
    let mut i: usize = 0;
    while i < n && i < m && a[i] == b[i]
        invariant
            i <= n,
            i <= m,
            n == a@.len(),
            m == b@.len(),
            a@.take(i as int) == b@.take(i as int),
        decreases n - i,
    {
        assert(a@.take(i + 1) =~= a@.take(i as int).push(a@[i as int]));
        assert(b@.take(i + 1) =~= b@.take(i as int).push(b@[i as int]));
        i = i + 1;
    }
    proof {
        lemma_text_less_skip(a@, b@, i as int);
    }
    if i == n {
        i < m
    } else if i == m {
        false
    } else {
        (a[i] as u32) < (b[i] as u32)
    }
}

/// The first ten characters of a time stamp.
fn day_chars(ts: &String) -> (r: Vec<char>)
    ensures
        r@ == day_of(ts@),
{
    let v = chars_of(ts.as_str());
    if v.len() <= 10 {
        v
    } else {
        let mut r: Vec<char> = Vec::new();
        let mut i: usize = 0;
        while i < 10
            invariant
                i <= 10,
                10 < v@.len(),
                r@ == v@.take(i as int),
            decreases 10 - i,
        {
            r.push(v[i]);
            i = i + 1;
            assert(r@ =~= v@.take(i as int));
        }
        r
    }
}

/// The positions, below `n`, of the records of day `date`, in order.
pub open spec fn day_records(recs: Seq<HourlyModel>, date: Seq<char>, n: int) -> Seq<usize>
    decreases n,
{
    if n <= 0 {
        seq![]
    } else if day_of(recs[n - 1].timestamp) == date {
        day_records(recs, date, n - 1).push((n - 1) as usize)
    } else {
        day_records(recs, date, n - 1)
    }
}

/// How many records, below `n`, of day `date` have a solar measurement.
pub open spec fn solar_count(recs: Seq<HourlyModel>, date: Seq<char>, n: int) -> nat
    decreases n,
{
    if n <= 0 {
        0
    } else if day_of(recs[n - 1].timestamp) == date && recs[n - 1].has_solar {
        solar_count(recs, date, n - 1) + 1
    } else {
        solar_count(recs, date, n - 1)
    }
}

/// How many records, below `n`, of day `date` have a sunshine measurement.
pub open spec fn sunshine_count(recs: Seq<HourlyModel>, date: Seq<char>, n: int) -> nat
    decreases n,
{
    if n <= 0 {
        0
    } else if day_of(recs[n - 1].timestamp) == date && recs[n - 1].has_sunshine {
        sunshine_count(recs, date, n - 1) + 1
    } else {
        sunshine_count(recs, date, n - 1)
    }
}

/// The highest precipitation probability among the records, below `n`, of
/// day `date`; nothing when none of them has one.
pub open spec fn max_pop(recs: Seq<HourlyModel>, date: Seq<char>, n: int) -> Option<i64>
    decreases n,
{
    if n <= 0 {
        None
    } else {
        let p = max_pop(recs, date, n - 1);
        if day_of(recs[n - 1].timestamp) == date {
            match recs[n - 1].precipitation_probability {
                Some(v) => match p {
                    Some(c) => Some(if c >= v {
                        c
                    } else {
                        v
                    }),
                    None => Some(v),
                },
                None => p,
            }
        } else {
            p
        }
    }
}

/// The condition of a record, or its icon when it has no condition.
pub open spec fn condition_or_icon(r: HourlyModel) -> Option<Seq<char>> {
    match r.condition {
        Some(c) => Some(c),
        None => r.icon,
    }
}

/// The condition (or icon) of the first record, below `n`, of day `date`
/// that has one.
pub open spec fn dominant(recs: Seq<HourlyModel>, date: Seq<char>, n: int) -> Option<Seq<char>>
    decreases n,
{
    if n <= 0 {
        None
    } else {
        let p = dominant(recs, date, n - 1);
        if p is None && day_of(recs[n - 1].timestamp) == date {
            condition_or_icon(recs[n - 1])
        } else {
            p
        }
    }
}

/// Whether `g` is the summary of day `date` over all of `recs`.
pub open spec fn is_day_summary(recs: Seq<HourlyModel>, date: Seq<char>, g: DayGroup) -> bool {
    let n = recs.len() as int;
    &&& g.date@ == date
    &&& g.records@ == day_records(recs, date, n)
    &&& g.solar_count == solar_count(recs, date, n)
    &&& g.sunshine_count == sunshine_count(recs, date, n)
    &&& g.max_pop == max_pop(recs, date, n)
    &&& opt_view(g.dominant_condition) == dominant(recs, date, n)
}

fn summarize_day(records: &[HourlyRecord], date: &Vec<char>) -> (g: DayGroup)
    ensures
        is_day_summary(records_view(records@), date@, g),
{
    let ghost recs = records_view(records@);
    let n = records.len();
    let mut idx: Vec<usize> = Vec::new();
    let mut solar: usize = 0;
    let mut sunshine: usize = 0;
    let mut pop: Option<i64> = None;
    let mut dom: Option<String> = None;
    let mut i: usize = 0;
    while i < n
        invariant
            i <= n,
            n == records@.len(),
            recs == records_view(records@),
            idx@ == day_records(recs, date@, i as int),
            solar == solar_count(recs, date@, i as int),
            sunshine == sunshine_count(recs, date@, i as int),
            solar <= i,
            sunshine <= i,
            pop == max_pop(recs, date@, i as int),
            opt_view(dom) == dominant(recs, date@, i as int),
        decreases n - i,
    {
        let rec = &records[i];
        assert(recs[i as int] == rec@);
        let d = day_chars(&rec.timestamp);
        if same_chars(&d, date) {
            idx.push(i);
            if rec.has_solar {
                solar = solar + 1;
            }
            if rec.has_sunshine {
                sunshine = sunshine + 1;
            }
            match rec.precipitation_probability {
                Some(v) => {
                    pop = match pop {
                        Some(c) => Some(if c >= v {
                            c
                        } else {
                            v
                        }),
                        None => Some(v),
                    };
                },
                None => {},
            }
            if dom.is_none() {
                dom = match &rec.condition {
                    Some(c) => Some(c.clone()),
                    None => copy_opt(&rec.icon),
                };
            }
        }
        i = i + 1;
    }
    DayGroup {
        date: string_from_chars(date),
        records: idx,
        solar_count: solar,
        sunshine_count: sunshine,
        max_pop: pop,
        dominant_condition: dom,
    }
}

/// The days of `recs`, in ascending order, at most five, with their
/// summaries: the earliest days that any record has, none skipped.
pub open spec fn is_day_list(recs: Seq<HourlyModel>, days: Seq<DayGroup>) -> bool {
    &&& days.len() <= 5
    &&& ascending(days)
    &&& all_known(recs, days)
    &&& first_days_covered(recs, days)
    &&& all_summarized(recs, days)
}

/// Whether day `d` comes after `prev` (anything does when there is none).
pub open spec fn after(prev: Option<Seq<char>>, d: Seq<char>) -> bool {
    match prev {
        None => true,
        Some(p) => text_less(p, d),
    }
}

fn next_day(records: &[HourlyRecord], prev: &Option<Vec<char>>) -> (r: Option<Vec<char>>)
    ensures
        match r {
            Some(b) => {
                &&& after(opt_chars(*prev), b@)
                &&& exists|k: int|
                    0 <= k < records@.len() && day_of(#[trigger] records_view(records@)[k].timestamp) == b@
                &&& forall|k: int|
                    0 <= k < records@.len() && after(
                        opt_chars(*prev),
                        day_of(#[trigger] records_view(records@)[k].timestamp),
                    ) ==> b@ == day_of(records_view(records@)[k].timestamp) || text_less(
                        b@,
                        day_of(records_view(records@)[k].timestamp),
                    )
            },
            None => forall|k: int|
                0 <= k < records@.len() ==> !after(
                    opt_chars(*prev),
                    day_of(#[trigger] records_view(records@)[k].timestamp),
                ),
        },
{
    let ghost recs = records_view(records@);
    let n = records.len();
    let mut best: Option<Vec<char>> = None;
    let mut i: usize = 0;
    while i < n
        invariant
            i <= n,
            n == records@.len(),
            recs == records_view(records@),
            match best {
                Some(b) => {
                    &&& after(opt_chars(*prev), b@)
                    &&& exists|k: int| 0 <= k < i && day_of(#[trigger] recs[k].timestamp) == b@
                    &&& forall|k: int|
                        0 <= k < i && after(opt_chars(*prev), day_of(#[trigger] recs[k].timestamp))
                            ==> b@ == day_of(recs[k].timestamp) || text_less(
                            b@,
                            day_of(recs[k].timestamp),
                        )
                },
                None => forall|k: int|
                    0 <= k < i ==> !after(opt_chars(*prev), day_of(#[trigger] recs[k].timestamp)),
            },
        decreases n - i,
    {
        assert(recs[i as int] == records@[i as int]@);
        let d = day_chars(&records[i].timestamp);
        let is_after = match prev {
            None => true,
            Some(p) => text_less_chars(p, &d),
        };
        if is_after {
            let better = match &best {
                None => true,
                Some(b) => text_less_chars(&d, b),
            };
            if better {
                proof {
                    match best {
                        Some(b) => {
                            assert forall|k: int|
                                0 <= k < i + 1 && after(
                                    opt_chars(*prev),
                                    day_of(#[trigger] recs[k].timestamp),
                                ) implies d@ == day_of(recs[k].timestamp) || text_less(
                                d@,
                                day_of(recs[k].timestamp),
                            ) by {
                                if k < i {
                                    if b@ != day_of(recs[k].timestamp) {
                                        lemma_text_less_transitive(
                                            d@,
                                            b@,
                                            day_of(recs[k].timestamp),
                                        );
                                    }
                                }
                            }
                        },
                        None => {},
                    }
                }
                assert(day_of(recs[i as int].timestamp) == d@);
                best = Some(d);
            } else {
                proof {
                    match opt_chars(best) {
                        Some(bv) => {
                            lemma_text_less_total(d@, bv);
                        },
                        None => {},
                    }
                }
            }
        }
        i = i + 1;
    }
    best
}

/// The characters of an optional text held as characters.
pub open spec fn opt_chars(o: Option<Vec<char>>) -> Option<Seq<char>> {
    match o {
        Some(v) => Some(v@),
        None => None,
    }
}

/// The date of the last day of a list, if any.
pub open spec fn last_date(days: Seq<DayGroup>) -> Option<Seq<char>> {
    if days.len() == 0 {
        None
    } else {
        Some(days[days.len() - 1].date@)
    }
}

/// Days in strictly ascending order.
#[verifier::opaque]
pub open spec fn ascending(days: Seq<DayGroup>) -> bool {
    forall|i: int, j: int|
        0 <= i < j < days.len() ==> text_less(#[trigger] days[i].date@, #[trigger] days[j].date@)
}

/// Every day is the day of some record.
#[verifier::opaque]
pub open spec fn all_known(recs: Seq<HourlyModel>, days: Seq<DayGroup>) -> bool {
    forall|i: int|
        0 <= i < days.len() ==> exists|k: int|
            0 <= k < recs.len() && day_of(#[trigger] recs[k].timestamp) == (#[trigger] days[i]).date@
}

/// Every day carries its summary.
#[verifier::opaque]
pub open spec fn all_summarized(recs: Seq<HourlyModel>, days: Seq<DayGroup>) -> bool {
    forall|i: int| 0 <= i < days.len() ==> is_day_summary(recs, (#[trigger] days[i]).date@, days[i])
}

/// Every record is of one of the days, or of a later day than the last.
#[verifier::opaque]
pub open spec fn covered(recs: Seq<HourlyModel>, days: Seq<DayGroup>) -> bool {
    forall|k: int|
        0 <= k < recs.len() ==> (exists|i: int|
            0 <= i < days.len() && (#[trigger] days[i]).date@ == day_of(#[trigger] recs[k].timestamp))
            || after(last_date(days), day_of(recs[k].timestamp))
}

/// Whether record `k` is of one of the days, or there are five days and
/// its day is later than the fifth.
pub open spec fn covers_record(recs: Seq<HourlyModel>, days: Seq<DayGroup>, k: int) -> bool {
    ||| exists|i: int| 0 <= i < days.len() && (#[trigger] days[i]).date@ == day_of(recs[k].timestamp)
    ||| (days.len() == 5 && text_less(days[4].date@, day_of(recs[k].timestamp)))
}

/// Every record is of one of the days, or there are five days and the
/// record's day is later than the fifth.
#[verifier::opaque]
pub open spec fn first_days_covered(recs: Seq<HourlyModel>, days: Seq<DayGroup>) -> bool {
    forall|k: int| 0 <= k < recs.len() ==> #[trigger] covers_record(recs, days, k)
}

/// The days found so far: ascending, each a day of some record and with its
/// summary, and every record either of one of them or of a later day.
pub open spec fn days_so_far(recs: Seq<HourlyModel>, days: Seq<DayGroup>) -> bool {
    &&& ascending(days)
    &&& all_known(recs, days)
    &&& all_summarized(recs, days)
    &&& covered(recs, days)
}

proof fn lemma_days_start(recs: Seq<HourlyModel>)
    ensures
        days_so_far(recs, seq![]),
{
    reveal(ascending);
    reveal(all_known);
    reveal(all_summarized);
    reveal(covered);
}

proof fn lemma_ascending_extend(days: Seq<DayGroup>, b: Seq<char>, g: DayGroup)
    requires
        ascending(days),
        after(last_date(days), b),
        g.date@ == b,
    ensures
        ascending(days.push(g)),
{
    reveal(ascending);
    let nd = days.push(g);
    assert forall|i: int, j: int| 0 <= i < j < nd.len() implies text_less(
        #[trigger] nd[i].date@,
        #[trigger] nd[j].date@,
    ) by {
        assert(nd[i] == days[i]);
        if j == nd.len() - 1 {
            if i < days.len() - 1 {
                lemma_text_less_transitive(days[i].date@, days[days.len() - 1].date@, b);
            }
        } else {
            assert(nd[j] == days[j]);
        }
    }
}

proof fn lemma_known_extend(recs: Seq<HourlyModel>, days: Seq<DayGroup>, g: DayGroup)
    requires
        all_known(recs, days),
        exists|k: int| 0 <= k < recs.len() && day_of(#[trigger] recs[k].timestamp) == g.date@,
    ensures
        all_known(recs, days.push(g)),
{
    reveal(all_known);
    let nd = days.push(g);
    assert forall|i: int| 0 <= i < nd.len() implies exists|k: int|
        0 <= k < recs.len() && day_of(#[trigger] recs[k].timestamp) == (#[trigger] nd[i]).date@ by {
        if i < days.len() {
            assert(nd[i] == days[i]);
        }
    }
}

proof fn lemma_summarized_extend(recs: Seq<HourlyModel>, days: Seq<DayGroup>, g: DayGroup)
    requires
        all_summarized(recs, days),
        is_day_summary(recs, g.date@, g),
    ensures
        all_summarized(recs, days.push(g)),
{
    reveal(all_summarized);
    let nd = days.push(g);
    assert forall|i: int| 0 <= i < nd.len() implies is_day_summary(
        recs,
        (#[trigger] nd[i]).date@,
        nd[i],
    ) by {
        if i < days.len() {
            assert(nd[i] == days[i]);
        }
    }
}

proof fn lemma_covered_extend(recs: Seq<HourlyModel>, days: Seq<DayGroup>, b: Seq<char>, g: DayGroup)
    requires
        covered(recs, days),
        g.date@ == b,
        forall|k: int|
            0 <= k < recs.len() && after(last_date(days), day_of(#[trigger] recs[k].timestamp))
                ==> b == day_of(recs[k].timestamp) || text_less(b, day_of(recs[k].timestamp)),
    ensures
        covered(recs, days.push(g)),
{
    reveal(covered);
    let nd = days.push(g);
    assert(last_date(nd) == Some(b));
    assert forall|k: int| 0 <= k < recs.len() implies (exists|i: int|
        0 <= i < nd.len() && (#[trigger] nd[i]).date@ == day_of(#[trigger] recs[k].timestamp))
        || after(last_date(nd), day_of(recs[k].timestamp)) by {
        let dk = day_of(recs[k].timestamp);
        if exists|i: int| 0 <= i < days.len() && (#[trigger] days[i]).date@ == dk {
            let i = choose|i: int| 0 <= i < days.len() && (#[trigger] days[i]).date@ == dk;
            assert(nd[i] == days[i]);
        } else {
            if dk == b {
                assert(nd[nd.len() - 1].date@ == dk);
            }
        }
    }
}

proof fn lemma_days_extend(recs: Seq<HourlyModel>, days: Seq<DayGroup>, b: Seq<char>, g: DayGroup)
    requires
        days_so_far(recs, days),
        after(last_date(days), b),
        exists|k: int| 0 <= k < recs.len() && day_of(#[trigger] recs[k].timestamp) == b,
        forall|k: int|
            0 <= k < recs.len() && after(last_date(days), day_of(#[trigger] recs[k].timestamp))
                ==> b == day_of(recs[k].timestamp) || text_less(b, day_of(recs[k].timestamp)),
        is_day_summary(recs, b, g),
    ensures
        days_so_far(recs, days.push(g)),
{
    lemma_ascending_extend(days, b, g);
    lemma_known_extend(recs, days, g);
    lemma_summarized_extend(recs, days, g);
    lemma_covered_extend(recs, days, b, g);
}

proof fn lemma_first_days_covered(recs: Seq<HourlyModel>, days: Seq<DayGroup>)
    requires
        covered(recs, days),
        days.len() <= 5,
        days.len() == 5 || forall|k: int|
            0 <= k < recs.len() ==> !after(last_date(days), day_of(#[trigger] recs[k].timestamp)),
    ensures
        first_days_covered(recs, days),
{
    reveal(first_days_covered);
    assert forall|k: int| 0 <= k < recs.len() implies #[trigger] covers_record(recs, days, k) by {
        reveal(covered);
        let d = day_of(recs[k].timestamp);
        assert((exists|i: int| 0 <= i < days.len() && (#[trigger] days[i]).date@ == d) || after(
            last_date(days),
            d,
        ));
        if !exists|i: int| 0 <= i < days.len() && (#[trigger] days[i]).date@ == d {
            if days.len() == 5 {
                assert(last_date(days) == Some(days[4].date@));
            } else {
                assert(!after(last_date(days), d));
            }
        }
    }
}

proof fn lemma_days_done(recs: Seq<HourlyModel>, days: Seq<DayGroup>)
    requires
        days_so_far(recs, days),
        days.len() <= 5,
        days.len() == 5 || forall|k: int|
            0 <= k < recs.len() ==> !after(last_date(days), day_of(#[trigger] recs[k].timestamp)),
    ensures
        is_day_list(recs, days),
{
    lemma_first_days_covered(recs, days);
}

/// The first five days of the hourly records, in ascending order, each with
/// the positions of its records, the number of solar and of sunshine
/// measurements, the highest precipitation probability and the first
/// condition (or icon) reported.
pub fn summarize_days(records: &[HourlyRecord]) -> (r: Vec<DayGroup>)
    ensures
        is_day_list(records_view(records@), r@),
{
    let ghost recs = records_view(records@);
    let mut days: Vec<DayGroup> = Vec::new();
    let mut prev: Option<Vec<char>> = None;
    proof {
        lemma_days_start(recs);
    }
    let mut done = false;
    while days.len() < 5 && !done
        invariant
            recs == records_view(records@),
            days@.len() <= 5,
            days_so_far(recs, days@),
            opt_chars(prev) == last_date(days@),
            done ==> forall|k: int|
                0 <= k < recs.len() ==> !after(last_date(days@), day_of(#[trigger] recs[k].timestamp)),
        decreases 5 - days@.len(), if done { 0int } else { 1int },
    {
        match next_day(records, &prev) {
            Some(b) => {
                let g = summarize_day(records, &b);
                proof {
                    lemma_days_extend(recs, days@, b@, g);
                }
                let ghost before = days@;
                days.push(g);
                assert(last_date(days@) == Some(b@));
                prev = Some(b);
            },
            None => {
                done = true;
            },
        }
    }
    proof {
        lemma_days_done(recs, days@);
    }
    days
}

/// Comparing two texts that start with parts of one length: the first parts
/// decide unless they are equal, and then the rests do.
pub proof fn lemma_text_less_concat(a1: Seq<char>, a2: Seq<char>, r1: Seq<char>, r2: Seq<char>)
    requires
        a1.len() == a2.len(),
    ensures
        text_less(a1 + r1, a2 + r2) == if a1 == a2 {
            text_less(r1, r2)
        } else {
            text_less(a1, a2)
        },
    decreases a1.len(),
{
    if a1.len() == 0 {
        assert(a1 =~= a2);
        assert(a1 + r1 =~= r1);
        assert(a2 + r2 =~= r2);
    } else {
        assert((a1 + r1)[0] == a1[0]);
        assert((a2 + r2)[0] == a2[0]);
        if a1[0] == a2[0] {
            lemma_text_less_concat(a1.drop_first(), a2.drop_first(), r1, r2);
            assert((a1 + r1).drop_first() =~= a1.drop_first() + r1);
            assert((a2 + r2).drop_first() =~= a2.drop_first() + r2);
            if a1.drop_first() == a2.drop_first() {
                assert forall|k: int| 0 <= k < a1.len() implies a1[k] == a2[k] by {
                    if k > 0 {
                        assert(a1[k] == a1.drop_first()[k - 1]);
                        assert(a2[k] == a2.drop_first()[k - 1]);
                    }
                }
                assert(a1 =~= a2);
            } else {
                assert(a1 != a2);
            }
        }
    }
}

/// Of two digit texts of one length, the one before the other spells the
/// smaller number.
pub proof fn lemma_digits_order(s: Seq<char>, t: Seq<char>)
    requires
        all_digits(s),
        all_digits(t),
        s.len() == t.len(),
    ensures
        text_less(s, t) == (digits_value(s) < digits_value(t)),
    decreases s.len(),
{
    if s.len() > 0 {
        let s1 = s.drop_last();
        let t1 = t.drop_last();
        assert(all_digits(s1)) by {
            assert forall|k: int| 0 <= k < s1.len() implies crate::text::is_digit(#[trigger] s1[k]) by {
                assert(s1[k] == s[k]);
            }
        }
        assert(all_digits(t1)) by {
            assert forall|k: int| 0 <= k < t1.len() implies crate::text::is_digit(#[trigger] t1[k]) by {
                assert(t1[k] == t[k]);
            }
        }
        assert(crate::text::is_digit(s[s.len() - 1]));
        assert(crate::text::is_digit(t[t.len() - 1]));
        lemma_digits_order(s1, t1);
        lemma_digits_order(t1, s1);
        lemma_text_less_total(s1, t1);
        let x = s.last();
        let y = t.last();
        assert(s =~= s1 + seq![x]);
        assert(t =~= t1 + seq![y]);
        lemma_text_less_concat(s1, t1, seq![x], seq![y]);
        if s1 == t1 {
            assert(seq![x].drop_first() =~= Seq::<char>::empty());
            assert(seq![y].drop_first() =~= Seq::<char>::empty());
            if x == y {
                lemma_text_less_irreflexive(seq![x]);
            }
            vstd::utf8::char_u32_cast(x, x as u32);
            vstd::utf8::char_u32_cast(y, y as u32);
        }
    }
}


/// Folds the records, first to last, with `f`, starting at `init`.
pub open spec fn fold_records<A>(s: Seq<HourlyModel>, init: A, f: spec_fn(A, HourlyModel) -> A) -> A
    decreases s.len(),
{
    if s.len() == 0 {
        init
    } else {
        f(fold_records(s.drop_last(), init, f), s.last())
    }
}

/// Whether the order in which `f` takes two records makes no difference.
pub open spec fn order_free<A>(f: spec_fn(A, HourlyModel) -> A) -> bool {
    forall|a: A, x: HourlyModel, y: HourlyModel| #[trigger] f(f(a, x), y) == f(f(a, y), x)
}

/// Counting the records of day `date`.
pub open spec fn hours_step(date: Seq<char>) -> spec_fn(nat, HourlyModel) -> nat {
    |a: nat, r: HourlyModel|
        if day_of(r.timestamp) == date {
            a + 1
        } else {
            a
        }
}

/// Counting the solar measurements of day `date`.
pub open spec fn solar_step(date: Seq<char>) -> spec_fn(nat, HourlyModel) -> nat {
    |a: nat, r: HourlyModel|
        if day_of(r.timestamp) == date && r.has_solar {
            a + 1
        } else {
            a
        }
}

/// Counting the sunshine measurements of day `date`.
pub open spec fn sunshine_step(date: Seq<char>) -> spec_fn(nat, HourlyModel) -> nat {
    |a: nat, r: HourlyModel|
        if day_of(r.timestamp) == date && r.has_sunshine {
            a + 1
        } else {
            a
        }
}

/// Keeping the highest precipitation probability of day `date`.
pub open spec fn pop_step(date: Seq<char>) -> spec_fn(Option<i64>, HourlyModel) -> Option<i64> {
    |a: Option<i64>, r: HourlyModel|
        if day_of(r.timestamp) == date {
            match r.precipitation_probability {
                Some(v) => match a {
                    Some(c) => Some(if c >= v {
                        c
                    } else {
                        v
                    }),
                    None => Some(v),
                },
                None => a,
            }
        } else {
            a
        }
}

proof fn lemma_fold_remove<A>(t: Seq<HourlyModel>, init: A, f: spec_fn(A, HourlyModel) -> A, j: int)
    requires
        0 <= j < t.len(),
        order_free(f),
    ensures
        fold_records(t, init, f) == f(fold_records(t.remove(j), init, f), t[j]),
    decreases t.len(),
{
    if j == t.len() - 1 {
        assert(t.remove(j) =~= t.drop_last());
    } else {
        let u = t.drop_last();
        lemma_fold_remove(u, init, f, j);
        assert(t.remove(j).drop_last() =~= u.remove(j));
        assert(t.remove(j).last() == t.last());
        assert(u[j] == t[j]);
        let b = fold_records(u.remove(j), init, f);
        assert(f(f(b, t[j]), t.last()) == f(f(b, t.last()), t[j]));
    }
}

proof fn lemma_fold_reorder<A>(
    s: Seq<HourlyModel>,
    t: Seq<HourlyModel>,
    init: A,
    f: spec_fn(A, HourlyModel) -> A,
)
    requires
        s.to_multiset() == t.to_multiset(),
        order_free(f),
    ensures
        fold_records(s, init, f) == fold_records(t, init, f),
    decreases s.len(),
{
    broadcast use vstd::seq_lib::group_to_multiset_ensures;

    if s.len() == 0 {
        assert(t.to_multiset().len() == 0);
        assert(t.len() == 0);
    } else {
        let n = s.len() - 1;
        let x = s[n];
        assert(s.drop_last() =~= s.remove(n));
        assert(s.contains(x));
        assert(t.to_multiset().count(x) > 0);
        assert(t.contains(x));
        let j = choose|j: int| 0 <= j < t.len() && t[j] == x;
        assert(s.remove(n).to_multiset() == s.to_multiset().remove(x));
        assert(t.remove(j).to_multiset() == t.to_multiset().remove(x));
        lemma_fold_reorder(s.drop_last(), t.remove(j), init, f);
        lemma_fold_remove(t, init, f, j);
    }
}

proof fn lemma_steps_order_free(date: Seq<char>)
    ensures
        order_free(hours_step(date)),
        order_free(solar_step(date)),
        order_free(sunshine_step(date)),
        order_free(pop_step(date)),
{
    assert forall|a: nat, x: HourlyModel, y: HourlyModel| #[trigger]
        hours_step(date)(hours_step(date)(a, x), y) == hours_step(date)(hours_step(date)(a, y), x) by {}
    assert forall|a: nat, x: HourlyModel, y: HourlyModel| #[trigger]
        solar_step(date)(solar_step(date)(a, x), y) == solar_step(date)(solar_step(date)(a, y), x) by {}
    assert forall|a: nat, x: HourlyModel, y: HourlyModel| #[trigger]
        sunshine_step(date)(sunshine_step(date)(a, x), y) == sunshine_step(date)(
            sunshine_step(date)(a, y),
            x,
        ) by {}
    assert forall|a: Option<i64>, x: HourlyModel, y: HourlyModel| #[trigger]
        pop_step(date)(pop_step(date)(a, x), y) == pop_step(date)(pop_step(date)(a, y), x) by {}
}

proof fn lemma_measures_fold(recs: Seq<HourlyModel>, date: Seq<char>, n: int)
    requires
        0 <= n <= recs.len(),
    ensures
        day_records(recs, date, n).len() == fold_records(recs.take(n), 0nat, hours_step(date)),
        solar_count(recs, date, n) == fold_records(recs.take(n), 0nat, solar_step(date)),
        sunshine_count(recs, date, n) == fold_records(recs.take(n), 0nat, sunshine_step(date)),
        max_pop(recs, date, n) == fold_records(recs.take(n), None, pop_step(date)),
    decreases n,
{
    if n > 0 {
        lemma_measures_fold(recs, date, n - 1);
        assert(recs.take(n).drop_last() =~= recs.take(n - 1));
        assert(recs.take(n).last() == recs[n - 1]);
    } else {
        assert(recs.take(n).len() == 0);
    }
}

proof fn lemma_measures_reorder(recs1: Seq<HourlyModel>, recs2: Seq<HourlyModel>, date: Seq<char>)
    requires
        recs1.to_multiset() == recs2.to_multiset(),
    ensures
        day_records(recs1, date, recs1.len() as int).len() == day_records(
            recs2,
            date,
            recs2.len() as int,
        ).len(),
        solar_count(recs1, date, recs1.len() as int) == solar_count(recs2, date, recs2.len() as int),
        sunshine_count(recs1, date, recs1.len() as int) == sunshine_count(
            recs2,
            date,
            recs2.len() as int,
        ),
        max_pop(recs1, date, recs1.len() as int) == max_pop(recs2, date, recs2.len() as int),
{
    lemma_measures_fold(recs1, date, recs1.len() as int);
    lemma_measures_fold(recs2, date, recs2.len() as int);
    assert(recs1.take(recs1.len() as int) =~= recs1);
    assert(recs2.take(recs2.len() as int) =~= recs2);
    lemma_steps_order_free(date);
    lemma_fold_reorder(recs1, recs2, 0nat, hours_step(date));
    lemma_fold_reorder(recs1, recs2, 0nat, solar_step(date));
    lemma_fold_reorder(recs1, recs2, 0nat, sunshine_step(date));
    lemma_fold_reorder(recs1, recs2, None, pop_step(date));
}

/// Whether some record is of day `d`.
pub open spec fn has_day(recs: Seq<HourlyModel>, d: Seq<char>) -> bool {
    exists|k: int| 0 <= k < recs.len() && day_of(#[trigger] recs[k].timestamp) == d
}

proof fn lemma_has_day_reorder(recs1: Seq<HourlyModel>, recs2: Seq<HourlyModel>, d: Seq<char>)
    requires
        recs1.to_multiset() == recs2.to_multiset(),
        has_day(recs1, d),
    ensures
        has_day(recs2, d),
{
    broadcast use vstd::seq_lib::group_to_multiset_ensures;

    let k = choose|k: int| 0 <= k < recs1.len() && day_of(#[trigger] recs1[k].timestamp) == d;
    let x = recs1[k];
    assert(recs1.contains(x));
    assert(recs2.to_multiset().count(x) > 0);
    assert(recs2.contains(x));
    let j = choose|j: int| 0 <= j < recs2.len() && recs2[j] == x;
    assert(day_of(recs2[j].timestamp) == d);
}

/// In two day lists that agree on their first `m` days, the day at `m` of
/// the one does not come before the day at `m` of the other, when it is a
/// day of the other's records.
proof fn lemma_day_not_before(recs: Seq<HourlyModel>, lx: Seq<DayGroup>, ly: Seq<DayGroup>, m: int)
    requires
        is_day_list(recs, ly),
        ascending(lx),
        0 <= m < lx.len(),
        m < ly.len(),
        forall|j: int| 0 <= j < m ==> (#[trigger] lx[j]).date@ == ly[j].date@,
        has_day(recs, lx[m].date@),
    ensures
        !text_less(lx[m].date@, ly[m].date@),
{
    let a = lx[m].date@;
    let b = ly[m].date@;
    if text_less(a, b) {
        lemma_text_less_irreflexive(a);
        let k = choose|k: int| 0 <= k < recs.len() && day_of(#[trigger] recs[k].timestamp) == a;
        assert(covers_record(recs, ly, k)) by {
            reveal(first_days_covered);
        }
        if exists|i: int| 0 <= i < ly.len() && (#[trigger] ly[i]).date@ == day_of(recs[k].timestamp) {
            let i = choose|i: int|
                0 <= i < ly.len() && (#[trigger] ly[i]).date@ == day_of(recs[k].timestamp);
            if i < m {
                assert(lx[i].date@ == ly[i].date@);
                assert(text_less(lx[i].date@, lx[m].date@)) by {
                    reveal(ascending);
                }
            } else if i > m {
                assert(text_less(ly[m].date@, ly[i].date@)) by {
                    reveal(ascending);
                }
                lemma_text_less_transitive(a, b, a);
            }
        } else {
            if m < 4 {
                assert(text_less(ly[m].date@, ly[4].date@)) by {
                    reveal(ascending);
                }
                lemma_text_less_transitive(b, ly[4].date@, a);
            }
            lemma_text_less_transitive(a, b, a);
        }
    }
}

proof fn lemma_known_day(recs: Seq<HourlyModel>, days: Seq<DayGroup>, i: int)
    requires
        all_known(recs, days),
        0 <= i < days.len(),
    ensures
        has_day(recs, days[i].date@),
{
    reveal(all_known);
    let k = choose|k: int| 0 <= k < recs.len() && day_of(#[trigger] recs[k].timestamp) == days[i].date@;
    assert(day_of(recs[k].timestamp) == days[i].date@);
}

proof fn lemma_day_lists_agree(
    recs1: Seq<HourlyModel>,
    recs2: Seq<HourlyModel>,
    l1: Seq<DayGroup>,
    l2: Seq<DayGroup>,
    n: int,
)
    requires
        recs1.to_multiset() == recs2.to_multiset(),
        is_day_list(recs1, l1),
        is_day_list(recs2, l2),
        0 <= n <= l1.len(),
        n <= l2.len(),
    ensures
        forall|j: int| 0 <= j < n ==> (#[trigger] l1[j]).date@ == l2[j].date@,
    decreases n,
{
    if n > 0 {
        lemma_day_lists_agree(recs1, recs2, l1, l2, n - 1);
        let m = n - 1;
        let a = l1[m].date@;
        let b = l2[m].date@;
        lemma_known_day(recs1, l1, m);
        lemma_known_day(recs2, l2, m);
        lemma_has_day_reorder(recs1, recs2, a);
        lemma_has_day_reorder(recs2, recs1, b);
        lemma_day_not_before(recs2, l1, l2, m);
        assert forall|j: int| 0 <= j < m implies (#[trigger] l2[j]).date@ == l1[j].date@ by {
            assert(l1[j].date@ == l2[j].date@);
        }
        lemma_day_not_before(recs1, l2, l1, m);
        lemma_text_less_total(a, b);
        assert forall|j: int| 0 <= j < n implies (#[trigger] l1[j]).date@ == l2[j].date@ by {
            if j < m {
                assert(l1[j].date@ == l2[j].date@);
            }
        }
    }
}

proof fn lemma_day_list_not_shorter(
    recs_x: Seq<HourlyModel>,
    recs_y: Seq<HourlyModel>,
    lx: Seq<DayGroup>,
    ly: Seq<DayGroup>,
)
    requires
        recs_x.to_multiset() == recs_y.to_multiset(),
        is_day_list(recs_x, lx),
        is_day_list(recs_y, ly),
        forall|j: int| 0 <= j < lx.len() && j < ly.len() ==> (#[trigger] lx[j]).date@ == ly[j].date@,
    ensures
        lx.len() >= ly.len(),
{
    if lx.len() < ly.len() {
        let m = lx.len() as int;
        let b = ly[m].date@;
        lemma_known_day(recs_y, ly, m);
        lemma_has_day_reorder(recs_y, recs_x, b);
        let k = choose|k: int| 0 <= k < recs_x.len() && day_of(#[trigger] recs_x[k].timestamp) == b;
        assert(covers_record(recs_x, lx, k)) by {
            reveal(first_days_covered);
        }
        let i = choose|i: int| 0 <= i < lx.len() && (#[trigger] lx[i]).date@ == day_of(recs_x[k].timestamp);
        assert(lx[i].date@ == ly[i].date@);
        assert(text_less(ly[i].date@, ly[m].date@)) by {
            reveal(ascending);
        }
        lemma_text_less_irreflexive(b);
    }
}

/// Reordering the hourly records changes nothing of the days found: the same
/// days in the same order, each with the same number of records, the same
/// numbers of solar and of sunshine measurements, and the same highest
/// precipitation probability. (The order decides only which positions are
/// listed and which condition is reported first.)
pub proof fn lemma_summarize_days_reorder(
    recs1: Seq<HourlyModel>,
    recs2: Seq<HourlyModel>,
    days1: Seq<DayGroup>,
    days2: Seq<DayGroup>,
)
    requires
        recs1.to_multiset() == recs2.to_multiset(),
        is_day_list(recs1, days1),
        is_day_list(recs2, days2),
    ensures
        days1.len() == days2.len(),
        forall|k: int|
            0 <= k < days1.len() ==> {
                &&& (#[trigger] days1[k]).date@ == days2[k].date@
                &&& days1[k].records@.len() == days2[k].records@.len()
                &&& days1[k].solar_count == days2[k].solar_count
                &&& days1[k].sunshine_count == days2[k].sunshine_count
                &&& days1[k].max_pop == days2[k].max_pop
            },
{
    let n = if days1.len() <= days2.len() {
        days1.len() as int
    } else {
        days2.len() as int
    };
    lemma_day_lists_agree(recs1, recs2, days1, days2, n);
    lemma_day_list_not_shorter(recs1, recs2, days1, days2);
    assert forall|j: int| 0 <= j < days2.len() && j < days1.len() implies (#[trigger] days2[j]).date@
        == days1[j].date@ by {
        assert(days1[j].date@ == days2[j].date@);
    }
    lemma_day_list_not_shorter(recs2, recs1, days2, days1);
    assert forall|k: int| 0 <= k < days1.len() implies {
        &&& (#[trigger] days1[k]).date@ == days2[k].date@
        &&& days1[k].records@.len() == days2[k].records@.len()
        &&& days1[k].solar_count == days2[k].solar_count
        &&& days1[k].sunshine_count == days2[k].sunshine_count
        &&& days1[k].max_pop == days2[k].max_pop
    } by {
        assert(is_day_summary(recs1, days1[k].date@, days1[k])) by {
            reveal(all_summarized);
        }
        assert(is_day_summary(recs2, days2[k].date@, days2[k])) by {
            reveal(all_summarized);
        }
        lemma_day_measures_agree(recs1, recs2, days1[k], days2[k]);
    }
}

proof fn lemma_day_measures_agree(
    recs1: Seq<HourlyModel>,
    recs2: Seq<HourlyModel>,
    g1: DayGroup,
    g2: DayGroup,
)
    requires
        recs1.to_multiset() == recs2.to_multiset(),
        is_day_summary(recs1, g1.date@, g1),
        is_day_summary(recs2, g2.date@, g2),
        g1.date@ == g2.date@,
    ensures
        g1.records@.len() == g2.records@.len(),
        g1.solar_count == g2.solar_count,
        g1.sunshine_count == g2.sunshine_count,
        g1.max_pop == g2.max_pop,
{
    lemma_measures_reorder(recs1, recs2, g1.date@);
}


/// The positions below `n` of the records of day `date`.
spec fn hour_positions(recs: Seq<HourlyModel>, date: Seq<char>, n: int) -> Set<int> {
    Set::new(|k: int| 0 <= k < n && day_of(recs[k].timestamp) == date)
}

/// The positions below `n` of the records of day `date` with a solar value.
spec fn solar_positions(recs: Seq<HourlyModel>, date: Seq<char>, n: int) -> Set<int> {
    Set::new(|k: int| 0 <= k < n && day_of(recs[k].timestamp) == date && recs[k].has_solar)
}

/// The positions below `n` of the records of day `date` with a sunshine
/// value.
spec fn sunshine_positions(recs: Seq<HourlyModel>, date: Seq<char>, n: int) -> Set<int> {
    Set::new(|k: int| 0 <= k < n && day_of(recs[k].timestamp) == date && recs[k].has_sunshine)
}

proof fn lemma_position_counts(recs: Seq<HourlyModel>, date: Seq<char>, n: int)
    requires
        0 <= n <= recs.len(),
        recs.len() <= usize::MAX,
    ensures
        hour_positions(recs, date, n).finite(),
        solar_positions(recs, date, n).finite(),
        sunshine_positions(recs, date, n).finite(),
        day_records(recs, date, n).len() == hour_positions(recs, date, n).len(),
        solar_count(recs, date, n) == solar_positions(recs, date, n).len(),
        sunshine_count(recs, date, n) == sunshine_positions(recs, date, n).len(),
        forall|j: int|
            0 <= j < day_records(recs, date, n).len() ==> {
                &&& 0 <= #[trigger] day_records(recs, date, n)[j] < n
                &&& day_of(recs[day_records(recs, date, n)[j] as int].timestamp) == date
            },
    decreases n,
{
    if n == 0 {
        assert(hour_positions(recs, date, n) =~= Set::<int>::empty());
        assert(solar_positions(recs, date, n) =~= Set::<int>::empty());
        assert(sunshine_positions(recs, date, n) =~= Set::<int>::empty());
    } else {
        let m = n - 1;
        lemma_position_counts(recs, date, m);
        let same = day_of(recs[m].timestamp) == date;
        if same {
            assert(hour_positions(recs, date, n) =~= hour_positions(recs, date, m).insert(m));
        } else {
            assert(hour_positions(recs, date, n) =~= hour_positions(recs, date, m));
        }
        if same && recs[m].has_solar {
            assert(solar_positions(recs, date, n) =~= solar_positions(recs, date, m).insert(m));
        } else {
            assert(solar_positions(recs, date, n) =~= solar_positions(recs, date, m));
        }
        if same && recs[m].has_sunshine {
            assert(sunshine_positions(recs, date, n) =~= sunshine_positions(recs, date, m).insert(m));
        } else {
            assert(sunshine_positions(recs, date, n) =~= sunshine_positions(recs, date, m));
        }
        let p = day_records(recs, date, m);
        let q = day_records(recs, date, n);
        assert forall|j: int| 0 <= j < q.len() implies {
            &&& 0 <= #[trigger] q[j] < n
            &&& day_of(recs[q[j] as int].timestamp) == date
        } by {
            if j < p.len() {
                assert(q[j] == p[j]);
            } else {
                assert(same);
                assert(q == p.push(m as usize));
                assert(q[j] == m as usize);
            }
        }
    }
}

proof fn lemma_dominant_first(recs: Seq<HourlyModel>, date: Seq<char>, n: int)
    requires
        0 <= n <= recs.len(),
    ensures
        dominant(recs, date, n) is None <==> forall|k: int|
            0 <= k < n && day_of(#[trigger] recs[k].timestamp) == date ==> recs[k].condition is None
                && recs[k].icon is None,
        forall|k: int|
            0 <= k < n && day_of(#[trigger] recs[k].timestamp) == date && (recs[k].condition is Some
                || recs[k].icon is Some) && (forall|j: int|
                0 <= j < k && day_of(recs[j].timestamp) == date ==> recs[j].condition is None
                    && recs[j].icon is None) ==> dominant(recs, date, n) == match recs[k].condition {
                Some(c) => Some(c),
                None => recs[k].icon,
            },
    decreases n,
{
    if n > 0 {
        lemma_dominant_first(recs, date, n - 1);
        let m = n - 1;
        assert forall|k: int|
            0 <= k < n && day_of(#[trigger] recs[k].timestamp) == date && (recs[k].condition is Some
                || recs[k].icon is Some) && (forall|j: int|
                0 <= j < k && day_of(recs[j].timestamp) == date ==> recs[j].condition is None
                    && recs[j].icon is None) implies dominant(recs, date, n) == match recs[k].condition {
                Some(c) => Some(c),
                None => recs[k].icon,
            } by {
            if k < m {
                assert(dominant(recs, date, m) is Some);
            } else {
                assert(dominant(recs, date, m) is None);
            }
        }
    }
}

/// What a day of the summary says of the records, each read off their
/// fields: the number of records of the day, and every position listed is
/// one of them; the number of them with a solar value and with a sunshine
/// value; and the condition of the first of them that has a condition or an
/// icon, its icon only when it has no condition, or nothing when none has
/// either.
pub proof fn lemma_day_summary_meaning(recs: Seq<HourlyModel>, days: Seq<DayGroup>, i: int)
    requires
        is_day_list(recs, days),
        0 <= i < days.len(),
        recs.len() <= usize::MAX,
    ensures
        ({
            let g = days[i];
            let d = g.date@;
            &&& g.records@.len() == Set::new(
                |k: int| 0 <= k < recs.len() && day_of(recs[k].timestamp) == d,
            ).len()
            &&& forall|j: int|
                0 <= j < g.records@.len() ==> 0 <= #[trigger] g.records@[j] < recs.len() && day_of(
                    recs[g.records@[j] as int].timestamp,
                ) == d
            &&& g.solar_count == Set::new(
                |k: int| 0 <= k < recs.len() && day_of(recs[k].timestamp) == d && recs[k].has_solar,
            ).len()
            &&& g.sunshine_count == Set::new(
                |k: int| 0 <= k < recs.len() && day_of(recs[k].timestamp) == d && recs[k].has_sunshine,
            ).len()
            &&& (forall|k: int|
                0 <= k < recs.len() && day_of(#[trigger] recs[k].timestamp) == d ==> recs[k].condition
                    is None && recs[k].icon is None) ==> g.dominant_condition is None
            &&& forall|k: int|
                0 <= k < recs.len() && day_of(#[trigger] recs[k].timestamp) == d && (
                recs[k].condition is Some || recs[k].icon is Some) && (forall|j: int|
                    0 <= j < k && day_of(recs[j].timestamp) == d ==> recs[j].condition is None
                        && recs[j].icon is None) ==> opt_view(g.dominant_condition) == match recs[k].condition {
                    Some(c) => Some(c),
                    None => recs[k].icon,
                }
        }),
{
    let g = days[i];
    let d = g.date@;
    let n = recs.len() as int;
    assert(is_day_summary(recs, d, g)) by {
        reveal(all_summarized);
    }
    lemma_position_counts(recs, d, n);
    lemma_dominant_first(recs, d, n);
    assert(Set::new(|k: int| 0 <= k < recs.len() && day_of(recs[k].timestamp) == d) =~= hour_positions(
        recs,
        d,
        n,
    ));
    assert(Set::new(
        |k: int| 0 <= k < recs.len() && day_of(recs[k].timestamp) == d && recs[k].has_solar,
    ) =~= solar_positions(recs, d, n));
    assert(Set::new(
        |k: int| 0 <= k < recs.len() && day_of(recs[k].timestamp) == d && recs[k].has_sunshine,
    ) =~= sunshine_positions(recs, d, n));
    if forall|k: int|
        0 <= k < recs.len() && day_of(#[trigger] recs[k].timestamp) == d ==> recs[k].condition is None
            && recs[k].icon is None {
        assert(dominant(recs, d, n) is None);
        assert(g.dominant_condition is None);
    }
}

} // verus!
