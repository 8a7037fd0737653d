//! Weekly analysis: tracked minutes bucketed by ISO week into the report's
//! categories.
//!
//! - Total: every entry whose project is not excluded.
//! - Focus, Support, Side: entries of the projects of those groups.
//! - Highlight: entries with a highlight tag.
//! - Priority: Focus or Highlight, an entry counted once.
use vstd::prelude::*;

use crate::calendar::{chrono_iso_monday, chrono_iso_week, chrono_weekday, min_year, date_text, iso_monday, iso_week, push_date, push_time, time_text, ymd, Date, Time};
use crate::period::{known_period, resolve, resolve_spec};
use crate::config::{copy_strings, first_exact, group_keys, Config};
use crate::datafile::{iso_of, ivs};
use crate::interval::{minutes_between, report_minutes, strs, Interval, IntervalV};
use crate::text::{
    append_str, chars_eq, chars_of, owned, parse_i64, parse_i64_chars, split_once, split_once_chars,
    string_of, strip_suffix, strip_suffix_chars,
};

verus! {

/// One ISO week of aggregated minutes.
#[derive(Debug, Clone, Copy, PartialEq, Eq, Structural)]
pub struct WeeklyStats {
    pub year: i32,
    pub week: u32,
    pub monday: Date,
    pub total: i64,
    pub focus: i64,
    pub support: i64,
    pub side: i64,
    pub highlight: i64,
    pub priority: i64,
}

/// The project lists and highlight tags that sort entries into buckets.
pub struct Groups {
    pub focus: Seq<Seq<char>>,
    pub support: Seq<Seq<char>>,
    pub side: Seq<Seq<char>>,
    pub excluded: Seq<Seq<char>>,
    pub highlight: Seq<Seq<char>>,
}

/// The projects of the configured group `name`, or the one project `default`.
pub open spec fn group_or(gs: Seq<(String, Vec<String>)>, name: Seq<char>, default: Seq<char>) -> Seq<
    Seq<char>,
> {
    match first_exact(group_keys(gs), name) {
        Some(i) => strs(gs[i].1@),
        None => seq![default],
    }
}

/// The groups a configuration sets for the report, with their defaults:
/// `focus`, `support` and `side` name themselves, `excluded` is `personal`,
/// and the highlight tags are `highlight` alone.
pub open spec fn report_groups(c: &Config) -> Groups {
    Groups {
        focus: group_or(c.report_groups@, "focus"@, "focus"@),
        support: group_or(c.report_groups@, "support"@, "support"@),
        side: group_or(c.report_groups@, "side"@, "side"@),
        excluded: group_or(c.report_groups@, "excluded"@, "personal"@),
        highlight: match c.highlight_tags {
            Some(t) => strs(t@),
            None => seq!["highlight"@],
        },
    }
}

/// The report's buckets.
pub enum Bucket {
    Total,
    Focus,
    Support,
    Side,
    Highlight,
    Priority,
}

/// The entry carries a highlight tag.
pub open spec fn highlighted(g: Groups, iv: IntervalV) -> bool {
    exists|t: int| 0 <= t < iv.tags.len() && g.highlight.contains(#[trigger] iv.tags[t])
}

/// Whether an entry counts toward a bucket. Entries of excluded projects
/// count toward none.
pub open spec fn in_bucket(g: Groups, iv: IntervalV, b: Bucket) -> bool {
    !g.excluded.contains(iv.project) && match b {
        Bucket::Total => true,
        Bucket::Focus => g.focus.contains(iv.project),
        Bucket::Support => g.support.contains(iv.project),
        Bucket::Side => g.side.contains(iv.project),
        Bucket::Highlight => highlighted(g, iv),
        Bucket::Priority => g.focus.contains(iv.project) || highlighted(g, iv),
    }
}

/// The minutes an entry contributes to a report made on `today` at `now`:
/// its positive report duration. A running entry from an earlier day
/// contributes nothing.
pub open spec fn counted(iv: IntervalV, today: Date, now: Time) -> Option<int> {
    match report_minutes(iv, today, now) {
        Some(m) => if m > 0 {
            Some(m as int)
        } else {
            None
        },
        None => None,
    }
}

/// The ISO week (year and week number) an entry falls in.
pub open spec fn key_of(iv: IntervalV) -> (int, int) {
    iso_of(iv.date)
}

/// What one entry adds to bucket `b` of week `k`.
pub open spec fn share(g: Groups, iv: IntervalV, b: Bucket, k: (int, int), today: Date, now: Time) -> int {
    match counted(iv, today, now) {
        Some(m) => if key_of(iv) == k && in_bucket(g, iv, b) {
            m
        } else {
            0
        },
        None => 0,
    }
}

/// The minutes of bucket `b` in week `k` over the entries `s`.
pub open spec fn bucket_minutes(
    s: Seq<IntervalV>,
    k: (int, int),
    b: Bucket,
    g: Groups,
    today: Date,
    now: Time,
) -> int
    decreases s.len(),
{
    if s.len() == 0 {
        0
    } else {
        bucket_minutes(s.drop_last(), k, b, g, today, now) + share(g, s.last(), b, k, today, now)
    }
}

/// Some entry of `s` counts in week `k`.
pub open spec fn has_week(s: Seq<IntervalV>, k: (int, int), today: Date, now: Time) -> bool {
    exists|j: int|
        0 <= j < s.len() && (#[trigger] counted(s[j], today, now)) is Some && key_of(s[j]) == k
}

/// The date of the first entry of `s` that counts in week `k`.
pub open spec fn first_date(s: Seq<IntervalV>, k: (int, int), today: Date, now: Time) -> Date
    decreases s.len(),
{
    if s.len() == 0 {
        Date { year: 0, month: 1, day: 1 }
    } else if has_week(s.drop_last(), k, today, now) {
        first_date(s.drop_last(), k, today, now)
    } else {
        s.last().date
    }
}

/// The date that a year, month and day name.
pub open spec fn date_of(t: (int, int, int)) -> Date {
    Date { year: t.0 as i32, month: t.1 as u32, day: t.2 as u32 }
}

/// The Monday of week `k`, or, should there be none, the date of the first
/// entry in that week.
pub open spec fn week_monday(s: Seq<IntervalV>, k: (int, int), today: Date, now: Time) -> Date {
    match chrono_iso_monday(k.0, k.1) {
        Some(t) => date_of(t),
        None => first_date(s, k, today, now),
    }
}

/// The statistics of week `k` over the entries `s`.
pub open spec fn week_stats(s: Seq<IntervalV>, k: (int, int), g: Groups, today: Date, now: Time) -> WeeklyStats {
    WeeklyStats {
        year: k.0 as i32,
        week: k.1 as u32,
        monday: week_monday(s, k, today, now),
        total: bucket_minutes(s, k, Bucket::Total, g, today, now) as i64,
        focus: bucket_minutes(s, k, Bucket::Focus, g, today, now) as i64,
        support: bucket_minutes(s, k, Bucket::Support, g, today, now) as i64,
        side: bucket_minutes(s, k, Bucket::Side, g, today, now) as i64,
        highlight: bucket_minutes(s, k, Bucket::Highlight, g, today, now) as i64,
        priority: bucket_minutes(s, k, Bucket::Priority, g, today, now) as i64,
    }
}

/// The week a statistics record is about.
pub open spec fn stats_key(w: WeeklyStats) -> (int, int) {
    (w.year as int, w.week as int)
}

/// The week's Monday is a valid date, a Monday, in that ISO week.
pub open spec fn monday_ok(w: WeeklyStats) -> bool {
    &&& w.monday.wf()
    &&& chrono_iso_week(w.monday.year as int, w.monday.month as int, w.monday.day as int) == stats_key(w)
    &&& chrono_weekday(w.monday.year as int, w.monday.month as int, w.monday.day as int) == 0
}

/// Chronological order of ISO weeks.
pub open spec fn key_lt(a: (int, int), b: (int, int)) -> bool {
    a.0 < b.0 || (a.0 == b.0 && a.1 < b.1)
}

/// `w` is the weekly aggregation of `s`: one record for each week in which
/// some entry counts, in chronological order, each with that week's sums.
pub open spec fn aggregated(w: Seq<WeeklyStats>, s: Seq<IntervalV>, g: Groups, today: Date, now: Time) -> bool {
    &&& forall|a: int, b: int|
        0 <= a < b < w.len() ==> key_lt(stats_key(#[trigger] w[a]), stats_key(#[trigger] w[b]))
    &&& forall|a: int| 0 <= a < w.len() ==> has_week(s, stats_key(#[trigger] w[a]), today, now)
    &&& forall|j: int|
        0 <= j < s.len() && (#[trigger] counted(s[j], today, now)) is Some ==> exists|a: int|
            0 <= a < w.len() && stats_key(#[trigger] w[a]) == key_of(s[j])
    &&& forall|a: int|
        0 <= a < w.len() ==> #[trigger] w[a] == week_stats(s, stats_key(w[a]), g, today, now)
}

// ---------------------------------------------------------------------------
// Lemmas on the sums
// ---------------------------------------------------------------------------

/// A running or closed entry counts fewer minutes than a day.
proof fn lemma_counted_bound(iv: IntervalV, today: Date, now: Time)
    requires
        iv.start.wf(),
        iv.end matches Some(e) ==> e.wf(),
        now.wf(),
    ensures
        counted(iv, today, now) matches Some(m) ==> 0 < m < 1440,
{
}

/// A bucket of a week in which nothing counts is empty.
proof fn lemma_no_week_zero(s: Seq<IntervalV>, k: (int, int), b: Bucket, g: Groups, today: Date, now: Time)
    requires
        !has_week(s, k, today, now),
    ensures
        bucket_minutes(s, k, b, g, today, now) == 0,
    decreases s.len(),
{
    if s.len() > 0 {
        assert(!has_week(s.drop_last(), k, today, now)) by {
            if has_week(s.drop_last(), k, today, now) {
                let j = choose|j: int|
                    0 <= j < s.drop_last().len() && (#[trigger] counted(s.drop_last()[j], today, now))
                        is Some && key_of(s.drop_last()[j]) == k;
                assert(s[j] == s.drop_last()[j]);
            }
        }
        lemma_no_week_zero(s.drop_last(), k, b, g, today, now);
        if counted(s.last(), today, now) is Some && key_of(s.last()) == k {
            assert(counted(s[s.len() - 1], today, now) is Some);
        }
    }
}

/// Sums are between nothing and a day per entry.
proof fn lemma_bucket_bounds(s: Seq<IntervalV>, k: (int, int), b: Bucket, g: Groups, today: Date, now: Time)
    requires
        forall|j: int| 0 <= j < s.len() ==> (#[trigger] s[j]).wf(),
        now.wf(),
    ensures
        0 <= bucket_minutes(s, k, b, g, today, now) <= 1440 * s.len(),
    decreases s.len(),
{
    if s.len() > 0 {
        assert(s.last() == s[s.len() - 1]);
        lemma_counted_bound(s.last(), today, now);
        lemma_bucket_bounds(s.drop_last(), k, b, g, today, now);
    }
}

/// A bucket whose entries all count toward another is no larger than it.
pub proof fn lemma_bucket_within(
    s: Seq<IntervalV>,
    k: (int, int),
    b1: Bucket,
    b2: Bucket,
    g: Groups,
    today: Date,
    now: Time,
)
    requires
        forall|iv: IntervalV| #[trigger] in_bucket(g, iv, b1) ==> in_bucket(g, iv, b2),
    ensures
        bucket_minutes(s, k, b1, g, today, now) <= bucket_minutes(s, k, b2, g, today, now),
    decreases s.len(),
{
    if s.len() > 0 {
        lemma_bucket_within(s.drop_last(), k, b1, b2, g, today, now);
        assert(in_bucket(g, s.last(), b1) ==> in_bucket(g, s.last(), b2));
    }
}

/// A bucket whose entries each count toward one of two others is no larger
/// than their sum.
pub proof fn lemma_bucket_within_two(
    s: Seq<IntervalV>,
    k: (int, int),
    b0: Bucket,
    b1: Bucket,
    b2: Bucket,
    g: Groups,
    today: Date,
    now: Time,
)
    requires
        forall|iv: IntervalV|
            #[trigger] in_bucket(g, iv, b0) ==> in_bucket(g, iv, b1) || in_bucket(g, iv, b2),
    ensures
        bucket_minutes(s, k, b0, g, today, now) <= bucket_minutes(s, k, b1, g, today, now)
            + bucket_minutes(s, k, b2, g, today, now),
    decreases s.len(),
{
    if s.len() > 0 {
        lemma_bucket_within_two(s.drop_last(), k, b0, b1, b2, g, today, now);
        assert(in_bucket(g, s.last(), b0) ==> in_bucket(g, s.last(), b1) || in_bucket(
            g,
            s.last(),
            b2,
        ));
    }
}

// ---------------------------------------------------------------------------
// Aggregation
// ---------------------------------------------------------------------------

/// The projects of the configured group `name`, or `default` alone.
fn group_set(config: &Config, name: &str, default: &str) -> (r: Vec<String>)
    ensures
        strs(r@) == group_or(config.report_groups@, name@, default@),
{
    match config.report_group(name) {
        Some(v) => copy_strings(v),
        None => {
            let mut v: Vec<String> = Vec::new();
            v.push(owned(default));
            assert(strs(v@) =~= seq![default@]);
            v
        },
    }
}

/// Whether `s` is one of `set`.
fn contains_str(set: &Vec<String>, s: &str) -> (r: bool)
    ensures
        r == strs(set@).contains(s@),
{
    let c = chars_of(s);
    let mut i: usize = 0;
    while i < set.len()
        invariant
            i <= set.len(),
            c@ == s@,
            forall|j: int| 0 <= j < i ==> (#[trigger] set@[j])@ != s@,
        decreases set.len() - i,
    {
        let e = chars_of(set[i].as_str());
        if chars_eq(&e, &c) {
            assert(strs(set@)[i as int] == s@);
            return true;
        }
        i += 1;
    }
    assert forall|j: int| 0 <= j < strs(set@).len() implies strs(set@)[j] != s@ by {
        assert(strs(set@)[j] == set@[j]@);
    }
    false
}

/// Whether one of `tags` is one of `set`.
fn any_in(tags: &Vec<String>, set: &Vec<String>) -> (r: bool)
    ensures
        r == exists|t: int| 0 <= t < tags@.len() && strs(set@).contains(#[trigger] strs(tags@)[t]),
{
    let mut i: usize = 0;
    while i < tags.len()
        invariant
            i <= tags.len(),
            forall|t: int| 0 <= t < i ==> !strs(set@).contains(#[trigger] strs(tags@)[t]),
        decreases tags.len() - i,
    {
        if contains_str(set, tags[i].as_str()) {
            assert(strs(set@).contains(strs(tags@)[i as int]));
            return true;
        }
        i += 1;
    }
    false
}

/// The first position in `weeks` whose week is not before `(y, w)`.
fn week_position(weeks: &Vec<WeeklyStats>, y: i32, w: u32) -> (p: usize)
    ensures
        p <= weeks@.len(),
        forall|a: int| 0 <= a < p ==> key_lt(stats_key(#[trigger] weeks@[a]), (y as int, w as int)),
        p < weeks@.len() ==> !key_lt(stats_key(weeks@[p as int]), (y as int, w as int)),
{
    let mut p: usize = 0;
    while p < weeks.len()
        invariant
            p <= weeks@.len(),
            forall|a: int| 0 <= a < p ==> key_lt(stats_key(#[trigger] weeks@[a]), (y as int, w as int)),
        decreases weeks.len() - p,
    {
        let x = weeks[p];
        if !(x.year < y || (x.year == y && x.week < w)) {
            return p;
        }
        p += 1;
    }
    p
}

/// Facts shared by the steps of the aggregation: sums over a longer list.
proof fn lemma_push_sums(t0: Seq<IntervalV>, iv: IntervalV, k: (int, int), g: Groups, today: Date, now: Time)
    ensures
        forall|b: Bucket| #[trigger]
            bucket_minutes(t0.push(iv), k, b, g, today, now) == bucket_minutes(t0, k, b, g, today, now)
                + share(g, iv, b, k, today, now),
        has_week(t0, k, today, now) ==> has_week(t0.push(iv), k, today, now),
        has_week(t0, k, today, now) ==> first_date(t0.push(iv), k, today, now) == first_date(
            t0,
            k,
            today,
            now,
        ),
        !has_week(t0, k, today, now) ==> first_date(t0.push(iv), k, today, now) == iv.date,
{
    let t1 = t0.push(iv);
    assert(t1.drop_last() =~= t0);
    assert(t1.last() == iv);
    if has_week(t0, k, today, now) {
        let j = choose|j: int|
            0 <= j < t0.len() && (#[trigger] counted(t0[j], today, now)) is Some && key_of(t0[j]) == k;
        assert(t1[j] == t0[j]);
    }
}

/// Every entry of the longer list counts where it did; the new one counts
/// in week `k` when it counts at all.
proof fn lemma_push_weeks(w: Seq<WeeklyStats>, t0: Seq<IntervalV>, iv: IntervalV, g: Groups, today: Date, now: Time)
    requires
        aggregated(w, t0, g, today, now),
    ensures
        forall|a: int|
            0 <= a < w.len() ==> has_week(t0.push(iv), stats_key(#[trigger] w[a]), today, now),
        forall|a: int|
            0 <= a < w.len() ==> #[trigger] week_stats(t0.push(iv), stats_key(w[a]), g, today, now)
                == (if stats_key(w[a]) == key_of(iv) && counted(iv, today, now) is Some {
                week_stats(t0.push(iv), stats_key(w[a]), g, today, now)
            } else {
                w[a]
            }),
{
    assert forall|a: int| 0 <= a < w.len() implies has_week(
        t0.push(iv),
        stats_key(#[trigger] w[a]),
        today,
        now,
    ) by {
        lemma_push_sums(t0, iv, stats_key(w[a]), g, today, now);
    }
    assert forall|a: int| 0 <= a < w.len() implies #[trigger] week_stats(
        t0.push(iv),
        stats_key(w[a]),
        g,
        today,
        now,
    ) == (if stats_key(w[a]) == key_of(iv) && counted(iv, today, now) is Some {
        week_stats(t0.push(iv), stats_key(w[a]), g, today, now)
    } else {
        w[a]
    }) by {
        let ka = stats_key(w[a]);
        lemma_push_sums(t0, iv, ka, g, today, now);
        assert(w[a] == week_stats(t0, ka, g, today, now));
        if !(ka == key_of(iv) && counted(iv, today, now) is Some) {
            assert(share(g, iv, Bucket::Total, ka, today, now) == 0);
            assert(share(g, iv, Bucket::Focus, ka, today, now) == 0);
            assert(share(g, iv, Bucket::Support, ka, today, now) == 0);
            assert(share(g, iv, Bucket::Side, ka, today, now) == 0);
            assert(share(g, iv, Bucket::Highlight, ka, today, now) == 0);
            assert(share(g, iv, Bucket::Priority, ka, today, now) == 0);
        }
    }
}

/// An entry that does not count leaves the aggregation as it is.
proof fn lemma_step_skip(w: Seq<WeeklyStats>, t0: Seq<IntervalV>, iv: IntervalV, g: Groups, today: Date, now: Time)
    requires
        aggregated(w, t0, g, today, now),
        counted(iv, today, now) is None,
    ensures
        aggregated(w, t0.push(iv), g, today, now),
{
    let t1 = t0.push(iv);
    lemma_push_weeks(w, t0, iv, g, today, now);
    assert forall|j: int|
        0 <= j < t1.len() && (#[trigger] counted(t1[j], today, now)) is Some implies exists|a: int|
        0 <= a < w.len() && stats_key(#[trigger] w[a]) == key_of(t1[j]) by {
        assert(j < t0.len());
        assert(t1[j] == t0[j]);
    }
}

/// An entry that counts in a week already present updates that week.
proof fn lemma_step_update(
    w: Seq<WeeklyStats>,
    p: int,
    t0: Seq<IntervalV>,
    iv: IntervalV,
    g: Groups,
    today: Date,
    now: Time,
)
    requires
        aggregated(w, t0, g, today, now),
        0 <= p < w.len(),
        stats_key(w[p]) == key_of(iv),
        counted(iv, today, now) is Some,
    ensures
        aggregated(
            w.update(p, week_stats(t0.push(iv), key_of(iv), g, today, now)),
            t0.push(iv),
            g,
            today,
            now,
        ),
{
    let t1 = t0.push(iv);
    let k = key_of(iv);
    let nw = week_stats(t1, k, g, today, now);
    let w1 = w.update(p, nw);
    lemma_push_weeks(w, t0, iv, g, today, now);
    assert(stats_key(nw) == k);
    assert forall|a: int| 0 <= a < w1.len() implies has_week(
        t1,
        stats_key(#[trigger] w1[a]),
        today,
        now,
    ) by {
        assert(stats_key(w1[a]) == stats_key(w[a]));
    }
    assert forall|j: int|
        0 <= j < t1.len() && (#[trigger] counted(t1[j], today, now)) is Some implies exists|a: int|
        0 <= a < w1.len() && stats_key(#[trigger] w1[a]) == key_of(t1[j]) by {
        if j < t0.len() {
            assert(t1[j] == t0[j]);
            let a = choose|a: int| 0 <= a < w.len() && stats_key(#[trigger] w[a]) == key_of(t0[j]);
            assert(stats_key(w1[a]) == stats_key(w[a]));
        } else {
            assert(stats_key(w1[p]) == key_of(t1[j]));
        }
    }
    assert forall|a: int| 0 <= a < w1.len() implies #[trigger] w1[a] == week_stats(
        t1,
        stats_key(w1[a]),
        g,
        today,
        now,
    ) by {
        if a != p {
            assert(stats_key(w[a]) != k) by {
                if stats_key(w[a]) == k {
                    if a < p {
                        assert(key_lt(stats_key(w[a]), stats_key(w[p])));
                    } else {
                        assert(key_lt(stats_key(w[p]), stats_key(w[a])));
                    }
                }
            }
        }
    }
    assert forall|a: int, b: int|
        0 <= a < b < w1.len() implies key_lt(stats_key(#[trigger] w1[a]), stats_key(#[trigger] w1[b])) by {
        assert(stats_key(w1[a]) == stats_key(w[a]));
        assert(stats_key(w1[b]) == stats_key(w[b]));
    }
}

/// An entry that counts in a week not yet present adds that week at its
/// place in the order.
proof fn lemma_step_insert(
    w: Seq<WeeklyStats>,
    p: int,
    t0: Seq<IntervalV>,
    iv: IntervalV,
    g: Groups,
    today: Date,
    now: Time,
)
    requires
        aggregated(w, t0, g, today, now),
        0 <= p <= w.len(),
        forall|a: int| 0 <= a < p ==> key_lt(stats_key(#[trigger] w[a]), key_of(iv)),
        p < w.len() ==> key_lt(key_of(iv), stats_key(w[p])),
        counted(iv, today, now) is Some,
        stats_key(week_stats(t0.push(iv), key_of(iv), g, today, now)) == key_of(iv),
    ensures
        !has_week(t0, key_of(iv), today, now),
        aggregated(
            w.insert(p, week_stats(t0.push(iv), key_of(iv), g, today, now)),
            t0.push(iv),
            g,
            today,
            now,
        ),
{
    let t1 = t0.push(iv);
    let k = key_of(iv);
    let nw = week_stats(t1, k, g, today, now);
    let w1 = w.insert(p, nw);
    assert(!has_week(t0, k, today, now)) by {
        if has_week(t0, k, today, now) {
            let j = choose|j: int|
                0 <= j < t0.len() && (#[trigger] counted(t0[j], today, now)) is Some && key_of(t0[j]) == k;
            let a = choose|a: int| 0 <= a < w.len() && stats_key(#[trigger] w[a]) == key_of(t0[j]);
            if a > p {
                assert(key_lt(stats_key(w[p]), stats_key(w[a])));
            }
        }
    }
    lemma_push_weeks(w, t0, iv, g, today, now);
    assert forall|a: int| 0 <= a < w1.len() implies has_week(
        t1,
        stats_key(#[trigger] w1[a]),
        today,
        now,
    ) by {
        if a == p {
            assert(t1[t0.len() as int] == iv);
            assert(counted(t1[t0.len() as int], today, now) is Some);
        } else if a < p {
            assert(w1[a] == w[a]);
        } else {
            assert(w1[a] == w[a - 1]);
        }
    }
    assert forall|j: int|
        0 <= j < t1.len() && (#[trigger] counted(t1[j], today, now)) is Some implies exists|a: int|
        0 <= a < w1.len() && stats_key(#[trigger] w1[a]) == key_of(t1[j]) by {
        if j < t0.len() {
            assert(t1[j] == t0[j]);
            let a = choose|a: int| 0 <= a < w.len() && stats_key(#[trigger] w[a]) == key_of(t0[j]);
            if a < p {
                assert(w1[a] == w[a]);
            } else {
                assert(w1[a + 1] == w[a]);
            }
        } else {
            assert(stats_key(w1[p]) == key_of(t1[j]));
        }
    }
    assert forall|a: int| 0 <= a < w1.len() implies #[trigger] w1[a] == week_stats(
        t1,
        stats_key(w1[a]),
        g,
        today,
        now,
    ) by {
        if a != p {
            let a0 = if a < p {
                a
            } else {
                a - 1
            };
            assert(w1[a] == w[a0]);
            assert(stats_key(w[a0]) != k) by {
                if stats_key(w[a0]) == k {
                    if a0 >= p {
                        if a0 > p {
                            assert(key_lt(stats_key(w[p]), stats_key(w[a0])));
                        }
                    }
                }
            }
        }
    }
    assert forall|a: int, b: int|
        0 <= a < b < w1.len() implies key_lt(stats_key(#[trigger] w1[a]), stats_key(#[trigger] w1[b])) by {
        if b < p {
            assert(w1[a] == w[a]);
            assert(w1[b] == w[b]);
        } else if b == p {
            assert(w1[a] == w[a]);
        } else if a < p {
            assert(w1[a] == w[a]);
            assert(w1[b] == w[b - 1]);
            if b - 1 > p {
                assert(key_lt(stats_key(w[p]), stats_key(w[b - 1])));
            }
        } else if a == p {
            assert(w1[b] == w[b - 1]);
            if b - 1 > p {
                assert(key_lt(stats_key(w[p]), stats_key(w[b - 1])));
            }
        } else {
            assert(w1[a] == w[a - 1]);
            assert(w1[b] == w[b - 1]);
        }
    }
}

/// The buckets of every week nest as the report defines them: Focus and
/// Highlight are within Priority, which is within Total, as are Support and
/// Side; and Priority counts an entry that is both Focus and Highlight once,
/// so it is at most their sum.
pub proof fn law_bucket_nesting(w: Seq<WeeklyStats>, s: Seq<IntervalV>, g: Groups, today: Date, now: Time)
    requires
        aggregated(w, s, g, today, now),
        forall|j: int| 0 <= j < s.len() ==> (#[trigger] s[j]).wf(),
        now.wf(),
        s.len() * 1440 <= i64::MAX,
    ensures
        forall|a: int|
            0 <= a < w.len() ==> {
                let x = #[trigger] w[a];
                &&& 0 <= x.focus <= x.priority <= x.total
                &&& 0 <= x.highlight <= x.priority
                &&& 0 <= x.support <= x.total
                &&& 0 <= x.side <= x.total
                &&& x.priority <= x.focus + x.highlight
            },
{
    assert forall|a: int| 0 <= a < w.len() implies {
        let x = #[trigger] w[a];
        &&& 0 <= x.focus <= x.priority <= x.total
        &&& 0 <= x.highlight <= x.priority
        &&& 0 <= x.support <= x.total
        &&& 0 <= x.side <= x.total
        &&& x.priority <= x.focus + x.highlight
    } by {
        let k = stats_key(w[a]);
        lemma_bucket_bounds(s, k, Bucket::Total, g, today, now);
        lemma_bucket_bounds(s, k, Bucket::Focus, g, today, now);
        lemma_bucket_bounds(s, k, Bucket::Support, g, today, now);
        lemma_bucket_bounds(s, k, Bucket::Side, g, today, now);
        lemma_bucket_bounds(s, k, Bucket::Highlight, g, today, now);
        lemma_bucket_bounds(s, k, Bucket::Priority, g, today, now);
        lemma_bucket_within(s, k, Bucket::Focus, Bucket::Priority, g, today, now);
        lemma_bucket_within(s, k, Bucket::Highlight, Bucket::Priority, g, today, now);
        lemma_bucket_within(s, k, Bucket::Priority, Bucket::Total, g, today, now);
        lemma_bucket_within(s, k, Bucket::Support, Bucket::Total, g, today, now);
        lemma_bucket_within(s, k, Bucket::Side, Bucket::Total, g, today, now);
        lemma_bucket_within_two(s, k, Bucket::Priority, Bucket::Focus, Bucket::Highlight, g, today, now);
        assert(w[a] == week_stats(s, k, g, today, now));
    }
}

/// The five lists an aggregation sorts entries by.
struct GroupSets {
    focus: Vec<String>,
    support: Vec<String>,
    side: Vec<String>,
    excluded: Vec<String>,
    highlight: Vec<String>,
}

impl GroupSets {
    spec fn matches(&self, g: Groups) -> bool {
        &&& strs(self.focus@) == g.focus
        &&& strs(self.support@) == g.support
        &&& strs(self.side@) == g.side
        &&& strs(self.excluded@) == g.excluded
        &&& strs(self.highlight@) == g.highlight
    }
}

/// Adds one entry to the weekly aggregation of the entries before it.
fn add_entry(
    weeks: &mut Vec<WeeklyStats>,
    iv: &Interval,
    sets: &GroupSets,
    today: Date,
    now: Time,
    Ghost(t0): Ghost<Seq<IntervalV>>,
    Ghost(g): Ghost<Groups>,
)
    requires
        aggregated(old(weeks)@, t0, g, today, now),
        forall|a: int|
            0 <= a < old(weeks)@.len() ==> i32::MIN <= stats_key(#[trigger] old(weeks)@[a]).0
                <= i32::MAX && 0 <= stats_key(old(weeks)@[a]).1 <= u32::MAX,
        sets.matches(g),
        iv@.wf(),
        now.wf(),
        forall|j: int| 0 <= j < t0.len() ==> (#[trigger] t0[j]).wf(),
        1440 * t0.len() + 1440 <= i64::MAX,
    ensures
        aggregated(final(weeks)@, t0.push(iv@), g, today, now),
        forall|a: int|
            0 <= a < final(weeks)@.len() ==> i32::MIN <= stats_key(#[trigger] final(weeks)@[a]).0
                <= i32::MAX && 0 <= stats_key(final(weeks)@[a]).1 <= u32::MAX,
        iv.date.year > min_year() && (forall|a: int| 0 <= a < old(weeks)@.len() ==> monday_ok(#[trigger] old(weeks)@[a]))
            ==> forall|a: int| 0 <= a < final(weeks)@.len() ==> monday_ok(#[trigger] final(weeks)@[a]),
{
    proof {
        lemma_counted_bound(iv@, today, now);
    }
    let m = match iv.report_duration(today, now) {
        Some(m) => m,
        None => 0,
    };
    if m <= 0 {
        proof {
            lemma_step_skip(weeks@, t0, iv@, g, today, now);
        }
        return;
    }
    assert(counted(iv@, today, now) == Some(m as int));
    let (y, w) = iso_week(iv.date);
    let ghost k = (y as int, w as int);
    let ghost t1 = t0.push(iv@);
    assert(key_of(iv@) == k);
    let excluded = contains_str(&sets.excluded, iv.project.as_str());
    let focus = !excluded && contains_str(&sets.focus, iv.project.as_str());
    let support = !excluded && contains_str(&sets.support, iv.project.as_str());
    let side = !excluded && contains_str(&sets.side, iv.project.as_str());
    let hl = any_in(&iv.tags, &sets.highlight);
    assert(hl == highlighted(g, iv@)) by {
        if hl {
            let t = choose|t: int|
                0 <= t < iv.tags@.len() && strs(sets.highlight@).contains(#[trigger] strs(iv.tags@)[t]);
            assert(iv@.tags[t] == strs(iv.tags@)[t]);
        }
        if highlighted(g, iv@) {
            let t = choose|t: int| 0 <= t < iv@.tags.len() && g.highlight.contains(#[trigger] iv@.tags[t]);
            assert(iv@.tags[t] == strs(iv.tags@)[t]);
        }
    }
    let highlight = !excluded && hl;
    let priority = focus || highlight;
    let add_total: i64 = if !excluded {
        m
    } else {
        0
    };
    let add_focus: i64 = if focus {
        m
    } else {
        0
    };
    let add_support: i64 = if support {
        m
    } else {
        0
    };
    let add_side: i64 = if side {
        m
    } else {
        0
    };
    let add_highlight: i64 = if highlight {
        m
    } else {
        0
    };
    let add_priority: i64 = if priority {
        m
    } else {
        0
    };
    proof {
        lemma_push_sums(t0, iv@, k, g, today, now);
        assert(bucket_minutes(t1, k, Bucket::Total, g, today, now) == bucket_minutes(t0, k, Bucket::Total, g, today, now) + add_total);
        assert(bucket_minutes(t1, k, Bucket::Focus, g, today, now) == bucket_minutes(t0, k, Bucket::Focus, g, today, now) + add_focus);
        assert(bucket_minutes(t1, k, Bucket::Support, g, today, now) == bucket_minutes(t0, k, Bucket::Support, g, today, now) + add_support);
        assert(bucket_minutes(t1, k, Bucket::Side, g, today, now) == bucket_minutes(t0, k, Bucket::Side, g, today, now) + add_side);
        assert(bucket_minutes(t1, k, Bucket::Highlight, g, today, now) == bucket_minutes(t0, k, Bucket::Highlight, g, today, now) + add_highlight);
        assert(bucket_minutes(t1, k, Bucket::Priority, g, today, now) == bucket_minutes(t0, k, Bucket::Priority, g, today, now) + add_priority);
        lemma_bucket_bounds(t0, k, Bucket::Total, g, today, now);
        lemma_bucket_bounds(t0, k, Bucket::Focus, g, today, now);
        lemma_bucket_bounds(t0, k, Bucket::Support, g, today, now);
        lemma_bucket_bounds(t0, k, Bucket::Side, g, today, now);
        lemma_bucket_bounds(t0, k, Bucket::Highlight, g, today, now);
        lemma_bucket_bounds(t0, k, Bucket::Priority, g, today, now);
    }
    let p = week_position(weeks, y, w);
    let ghost w0 = weeks@;
    if p < weeks.len() && weeks[p].year == y && weeks[p].week == w {
        let old_w = weeks[p];
        assert(old_w == week_stats(t0, k, g, today, now));
        let nw = WeeklyStats {
            year: old_w.year,
            week: old_w.week,
            monday: old_w.monday,
            total: old_w.total + add_total,
            focus: old_w.focus + add_focus,
            support: old_w.support + add_support,
            side: old_w.side + add_side,
            highlight: old_w.highlight + add_highlight,
            priority: old_w.priority + add_priority,
        };
        assert(nw == week_stats(t1, k, g, today, now));
        assert(monday_ok(w0[p as int]) ==> monday_ok(nw));
        weeks.set(p, nw);
        proof {
            lemma_step_update(w0, p as int, t0, iv@, g, today, now);
        }
        assert(weeks@ =~= w0.update(p as int, week_stats(t1, k, g, today, now)));
    } else {
        let monday = match iso_monday(y, w) {
            Some(d) => d,
            None => iv.date,
        };
        proof {
            lemma_step_insert(w0, p as int, t0, iv@, g, today, now);
            lemma_no_week_zero(t0, k, Bucket::Total, g, today, now);
            lemma_no_week_zero(t0, k, Bucket::Focus, g, today, now);
            lemma_no_week_zero(t0, k, Bucket::Support, g, today, now);
            lemma_no_week_zero(t0, k, Bucket::Side, g, today, now);
            lemma_no_week_zero(t0, k, Bucket::Highlight, g, today, now);
            lemma_no_week_zero(t0, k, Bucket::Priority, g, today, now);
        }
        let nw = WeeklyStats {
            year: y,
            week: w,
            monday,
            total: add_total,
            focus: add_focus,
            support: add_support,
            side: add_side,
            highlight: add_highlight,
            priority: add_priority,
        };
        assert(nw == week_stats(t1, k, g, today, now));
        assert(iv.date.year > min_year() ==> monday_ok(nw));
        weeks.insert(p, nw);
        assert(weeks@ =~= w0.insert(p as int, week_stats(t1, k, g, today, now)));
        assert(iv.date.year > min_year() && (forall|a: int| 0 <= a < w0.len() ==> monday_ok(#[trigger] w0[a]))
            ==> forall|a: int| 0 <= a < weeks@.len() ==> monday_ok(#[trigger] weeks@[a])) by {
            if iv.date.year > min_year() && (forall|a: int| 0 <= a < w0.len() ==> monday_ok(#[trigger] w0[a])) {
                assert forall|a: int| 0 <= a < weeks@.len() implies monday_ok(#[trigger] weeks@[a]) by {
                    if a < p {
                        assert(weeks@[a] == w0[a]);
                    } else if a > p {
                        assert(weeks@[a] == w0[a - 1]);
                    }
                }
            }
        }
    }
}

/// Aggregates entries into per-ISO-week buckets, in chronological order.
///
/// An entry counts with its report duration (see
/// [`Interval::report_duration`]): a running entry counts only on its start
/// date, up to `now`, and a running entry from an earlier day counts nothing.
/// Entries of excluded projects count toward no bucket; the groups and
/// highlight tags come from `config`. Each week carries the Monday of that
/// ISO week, which chrono represents for every entry after its earliest
/// year.
pub fn aggregate(intervals: &Vec<Interval>, config: &Config, today: Date, now: Time) -> (r: Vec<
    WeeklyStats,
>)
    requires
        forall|i: int| 0 <= i < intervals@.len() ==> (#[trigger] intervals@[i])@.wf(),
        now.wf(),
        intervals@.len() * 1440 <= i64::MAX,
    ensures
        aggregated(r@, ivs(intervals@), report_groups(config), today, now),
        forall|a: int|
            0 <= a < r@.len() ==> {
                let x = #[trigger] r@[a];
                &&& 0 <= x.focus <= x.priority <= x.total
                &&& 0 <= x.highlight <= x.priority
                &&& 0 <= x.support <= x.total
                &&& 0 <= x.side <= x.total
                &&& x.priority <= x.focus + x.highlight
            },
        (forall|j: int| 0 <= j < intervals@.len() ==> (#[trigger] intervals@[j]).date.year > min_year())
            ==> forall|a: int| 0 <= a < r@.len() ==> monday_ok(#[trigger] r@[a]),
{
    let ghost g = report_groups(config);
    let ghost s = ivs(intervals@);
    let sets = GroupSets {
        focus: group_set(config, "focus", "focus"),
        support: group_set(config, "support", "support"),
        side: group_set(config, "side", "side"),
        excluded: group_set(config, "excluded", "personal"),
        highlight: config.highlight_tags(),
    };
    let mut weeks: Vec<WeeklyStats> = Vec::new();
    let mut i: usize = 0;
    assert(s.take(0) =~= Seq::<IntervalV>::empty());
    while i < intervals.len()
        invariant
            i <= intervals.len(),
            s == ivs(intervals@),
            forall|j: int| 0 <= j < intervals@.len() ==> (#[trigger] intervals@[j])@.wf(),
            now.wf(),
            intervals@.len() * 1440 <= i64::MAX,
            sets.matches(g),
            aggregated(weeks@, s.take(i as int), g, today, now),
            forall|a: int|
                0 <= a < weeks@.len() ==> i32::MIN <= stats_key(#[trigger] weeks@[a]).0 <= i32::MAX
                    && 0 <= stats_key(weeks@[a]).1 <= u32::MAX,
            (forall|j: int| 0 <= j < intervals@.len() ==> (#[trigger] intervals@[j]).date.year > min_year())
                ==> forall|a: int| 0 <= a < weeks@.len() ==> monday_ok(#[trigger] weeks@[a]),
        decreases intervals.len() - i,
    {
        let ghost t0 = s.take(i as int);
        assert(s.take(i + 1) =~= t0.push(intervals@[i as int]@));
        assert forall|j: int| 0 <= j < t0.len() implies (#[trigger] t0[j]).wf() by {
            assert(t0[j] == intervals@[j]@);
        }
        assert(1440 * t0.len() + 1440 <= i64::MAX) by {
            assert(t0.len() + 1 <= intervals@.len());
        }
        add_entry(&mut weeks, &intervals[i], &sets, today, now, Ghost(t0), Ghost(g));
        i += 1;
    }
    assert(s.take(intervals.len() as int) =~= s);
    proof {
        assert forall|j: int| 0 <= j < s.len() implies (#[trigger] s[j]).wf() by {
            assert(s[j] == intervals@[j]@);
        }
        law_bucket_nesting(weeks@, s, g, today, now);
    }
    weeks
}

// ---------------------------------------------------------------------------
// Text for the HTML report
// ---------------------------------------------------------------------------

/// The escape of one character for HTML text: `&`, `<` and `>` become entities.
pub open spec fn esc_char(c: char) -> Seq<char> {
    if c == '&' {
        "&amp;"@
    } else if c == '<' {
        "&lt;"@
    } else if c == '>' {
        "&gt;"@
    } else {
        seq![c]
    }
}

/// `s` with `&`, `<` and `>` escaped.
pub open spec fn esc_text(s: Seq<char>) -> Seq<char>
    decreases s.len(),
{
    if s.len() == 0 {
        Seq::empty()
    } else {
        esc_text(s.drop_last()) + esc_char(s.last())
    }
}

/// Escapes `&`, `<` and `>` for HTML text.
pub fn esc(s: &str) -> (r: String)
    ensures
        r@ == esc_text(s@),
{
    let c = chars_of(s);
    let mut out: Vec<char> = Vec::new();
    let mut i: usize = 0;
    while i < c.len()
        invariant
            i <= c.len(),
            c@ == s@,
            out@ == esc_text(c@.take(i as int)),
        decreases c.len() - i,
    {
        let ch = c[i];
        assert(c@.take(i + 1).drop_last() =~= c@.take(i as int));
        assert(c@.take(i + 1).last() == ch);
        if ch == '&' {
            append_str(&mut out, "&amp;");
        } else if ch == '<' {
            append_str(&mut out, "&lt;");
        } else if ch == '>' {
            append_str(&mut out, "&gt;");
        } else {
            out.push(ch);
        }
        i += 1;
    }
    assert(c@.take(c.len() as int) =~= c@);
    string_of(&out)
}

// ---------------------------------------------------------------------------
// The range of a report
// ---------------------------------------------------------------------------

/// `str::parse::<i32>`.
pub open spec fn parse_i32(s: Seq<char>) -> Option<i32> {
    match parse_i64(s) {
        Some(v) => if i32::MIN <= v <= i32::MAX {
            Some(v as i32)
        } else {
            None
        },
        None => None,
    }
}

/// `str::parse::<u32>`: an optional `+`, then digits whose value fits.
pub open spec fn parse_u32(s: Seq<char>) -> Option<u32> {
    if s.len() > 0 && s[0] == '-' {
        None
    } else {
        match parse_i64(s) {
            Some(v) => if 0 <= v <= u32::MAX {
                Some(v as u32)
            } else {
                None
            },
            None => None,
        }
    }
}

/// The Monday of the ISO week a file name `YYYY-wWW.txt` names, if it names
/// one. The extreme years of `i32`, whose neighbours chrono cannot compute,
/// name no week.
pub open spec fn week_file_monday(name: Seq<char>) -> Option<(int, int, int)> {
    match strip_suffix(name, ".txt"@) {
        None => None,
        Some(stem) => match split_once(stem, "-w"@) {
            None => None,
            Some((y, w)) => match (parse_i32(y), parse_u32(w)) {
                (Some(year), Some(week)) => if i32::MIN < year < i32::MAX {
                    chrono_iso_monday(year as int, week as int)
                } else {
                    None
                },
                _ => None,
            },
        },
    }
}

/// The Monday of the ISO week a file name `YYYY-wWW.txt` names: the year and
/// week are read as numbers, the year is not an extreme of `i32`, and the
/// week must exist.
pub fn parse_week_filename(name: &str) -> (r: Option<Date>)
    ensures
        match week_file_monday(name@) {
            Some(t) => r matches Some(d) && ymd(d) == t && d.wf(),
            None => r is None,
        },
{
    let c = chars_of(name);
    let txt = chars_of(".txt");
    let stem = match strip_suffix_chars(&c, &txt) {
        Some(x) => x,
        None => return None,
    };
    let sep = chars_of("-w");
    let (ys, ws) = match split_once_chars(&stem, &sep) {
        Some(p) => p,
        None => return None,
    };
    let year: i32 = match parse_i64_chars(&ys) {
        Some(v) => {
            if (i32::MIN as i64) < v && v < i32::MAX as i64 {
                v as i32
            } else {
                return None;
            }
        },
        None => return None,
    };
    if ws.len() > 0 && ws[0] == '-' {
        return None;
    }
    let week: u32 = match parse_i64_chars(&ws) {
        Some(v) => {
            if 0 <= v && v <= u32::MAX as i64 {
                v as u32
            } else {
                return None;
            }
        },
        None => return None,
    };
    iso_monday(year, week)
}

/// The earliest Monday among the week files of `names`.
pub open spec fn earliest_monday(names: Seq<Seq<char>>) -> Option<(int, int, int)>
    decreases names.len(),
{
    if names.len() == 0 {
        None
    } else {
        let cur = earliest_monday(names.drop_last());
        match week_file_monday(names.last()) {
            None => cur,
            Some(m) => match cur {
                Some(c) => if !date_of(m).lt(date_of(c)) {
                    Some(c)
                } else {
                    Some(m)
                },
                None => Some(m),
            },
        }
    }
}

/// The earliest Monday is the Monday of one of the week files, and no week
/// file's Monday comes before it; there is none only when no name is a
/// week file.
pub proof fn law_earliest_monday(names: Seq<Seq<char>>)
    ensures
        earliest_monday(names) matches Some(t) ==> {
            &&& exists|i: int| 0 <= i < names.len() && week_file_monday(#[trigger] names[i]) == Some(t)
            &&& forall|i: int|
                0 <= i < names.len() && (#[trigger] week_file_monday(names[i])) is Some ==> !date_of(
                    week_file_monday(names[i])->0,
                ).lt(date_of(t))
        },
        earliest_monday(names) is None ==> forall|i: int|
            0 <= i < names.len() ==> (#[trigger] week_file_monday(names[i])) is None,
    decreases names.len(),
{
    if names.len() > 0 {
        let dl = names.drop_last();
        law_earliest_monday(dl);
        let n = names.len() - 1;
        assert(names[n] == names.last());
        assert forall|i: int| 0 <= i < dl.len() implies #[trigger] names[i] == dl[i] by {}
        match earliest_monday(names) {
            Some(t) => {
                if earliest_monday(dl) == Some(t) {
                    let k = choose|i: int| 0 <= i < dl.len() && week_file_monday(#[trigger] dl[i]) == Some(t);
                    assert(names[k] == dl[k]);
                } else {
                    assert(week_file_monday(names[n]) == Some(t));
                }
                assert forall|i: int|
                    0 <= i < names.len() && (#[trigger] week_file_monday(names[i])) is Some implies !date_of(
                        week_file_monday(names[i])->0,
                    ).lt(date_of(t)) by {
                    if i < dl.len() {
                        assert(names[i] == dl[i]);
                    }
                }
            },
            None => {
                assert forall|i: int| 0 <= i < names.len() implies (#[trigger] week_file_monday(names[i])) is None by {
                    if i < dl.len() {
                        assert(names[i] == dl[i]);
                    }
                }
            },
        }
    }
}

/// The Monday of the earliest week among the file names of a data directory.
pub fn earliest_week_start(names: &Vec<String>) -> (r: Option<Date>)
    ensures
        match earliest_monday(strs(names@)) {
            Some(t) => r matches Some(d) && ymd(d) == t && d.wf(),
            None => r is None,
        },
        r matches Some(d) ==> forall|i: int|
            0 <= i < names@.len() && (#[trigger] week_file_monday(names@[i]@)) is Some ==> !date_of(
                week_file_monday(names@[i]@)->0,
            ).lt(d),
{
    proof {
        law_earliest_monday(strs(names@));
        assert forall|i: int| 0 <= i < names@.len() implies #[trigger] strs(names@)[i] == names@[i]@ by {}
    }
    let ghost ns = strs(names@);
    let mut earliest: Option<Date> = None;
    let mut i: usize = 0;
    assert(ns.take(0) =~= Seq::<Seq<char>>::empty());
    while i < names.len()
        invariant
            i <= names.len(),
            ns == strs(names@),
            match earliest_monday(ns.take(i as int)) {
                Some(t) => earliest matches Some(d) && ymd(d) == t && d.wf(),
                None => earliest is None,
            },
        decreases names.len() - i,
    {
        assert(ns.take(i + 1).drop_last() =~= ns.take(i as int));
        assert(ns.take(i + 1).last() == names@[i as int]@);
        match parse_week_filename(names[i].as_str()) {
            Some(monday) => {
                earliest = Some(
                    match earliest {
                        Some(cur) => {
                            if !monday.before(&cur) {
                                cur
                            } else {
                                monday
                            }
                        },
                        None => monday,
                    },
                );
            },
            None => {},
        }
        i += 1;
    }
    assert(ns.take(names.len() as int) =~= ns);
    proof {
        if let Some(d) = earliest {
            let t = earliest_monday(ns)->0;
            assert(date_of(t) == d);
            assert forall|i: int|
                0 <= i < names@.len() && (#[trigger] week_file_monday(names@[i]@)) is Some implies !date_of(
                    week_file_monday(names@[i]@)->0,
                ).lt(d) by {
                assert(ns[i] == names@[i]@);
                assert(week_file_monday(ns[i]) is Some);
            }
        }
    }
    earliest
}

/// The dates and label of a report over `period`: `all` runs from the
/// Monday of the earliest week file (or today) to today; other periods as
/// [`crate::period::resolve`] reads them.
pub fn report_range(period: &str, today: Date, earliest: Option<Date>) -> (r: Result<(Date, Date, String), String>)
    requires
        today.wf(),
    ensures
        period@ == "all"@ ==> (r matches Ok(x) && x.0 == (match earliest {
            Some(e) => e,
            None => today,
        }) && x.1 == today && x.2@ == "all time"@),
        period@ != "all"@ ==> match resolve_spec(period@, today) {
            Some((s, e, l)) => r matches Ok(x) && x.0 == s && x.1 == e && x.2@ == l,
            None => r matches Err(m) && m@ == (if known_period(period@) {
                "date out of range"@
            } else {
                "unknown period '"@ + period@ + "'. Use: today, yesterday, week, last-week, month, year"@
            }),
        },
{
    if chars_eq(&chars_of(period), &chars_of("all")) {
        let start = match earliest {
            Some(e) => e,
            None => today,
        };
        return Ok((start, today, owned("all time")));
    }
    match resolve(period, today) {
        Ok(range) => Ok((range.start, range.end, range.label)),
        Err(e) => Err(e),
    }
}

/// The warning for a running entry from an earlier day, which the report skips.
pub open spec fn stale_warning_text(iv: IntervalV) -> Seq<char> {
    "warning: unclosed timer "@ + date_text(iv.date) + seq![' '] + time_text(iv.start) + ":00"@
        + " | @"@ + iv.project + " — skipped (close it to count)"@
}

/// The running entries from before `today`, in order.
pub open spec fn stale_entries(s: Seq<IntervalV>, today: Date) -> Seq<IntervalV>
    decreases s.len(),
{
    if s.len() == 0 {
        Seq::empty()
    } else {
        stale_entries(s.drop_last(), today) + if s.last().end is None && s.last().date.lt(today) {
            seq![s.last()]
        } else {
            Seq::empty()
        }
    }
}

/// A warning for each running entry from before `today`: such an entry is a
/// timer left running, and the report counts nothing for it.
pub fn stale_warnings(intervals: &Vec<Interval>, today: Date) -> (r: Vec<String>)
    ensures
        strs(r@) == stale_entries(ivs(intervals@), today).map_values(|iv: IntervalV| stale_warning_text(iv)),
{
    let ghost s = ivs(intervals@);
    let mut out: Vec<String> = Vec::new();
    let mut i: usize = 0;
    assert(s.take(0) =~= Seq::<IntervalV>::empty());
    assert(strs(out@) =~= stale_entries(s.take(0), today).map_values(|iv: IntervalV| stale_warning_text(iv)));
    while i < intervals.len()
        invariant
            i <= intervals.len(),
            s == ivs(intervals@),
            strs(out@) == stale_entries(s.take(i as int), today).map_values(|iv: IntervalV| stale_warning_text(iv)),
        decreases intervals.len() - i,
    {
        let iv = &intervals[i];
        assert(s.take(i + 1).drop_last() =~= s.take(i as int));
        assert(s.take(i + 1).last() == iv@);
        let ghost o0 = strs(out@);
        if iv.end.is_none() && iv.date.before(&today) {
            let mut v: Vec<char> = Vec::new();
            append_str(&mut v, "warning: unclosed timer ");
            push_date(&mut v, iv.date);
            v.push(' ');
            push_time(&mut v, iv.start);
            append_str(&mut v, ":00");
            append_str(&mut v, " | @");
            append_str(&mut v, iv.project.as_str());
            append_str(&mut v, " — skipped (close it to count)");
            assert(v@ =~= stale_warning_text(iv@));
            out.push(string_of(&v));
            assert(strs(out@) =~= o0.push(stale_warning_text(iv@)));
        }
        assert(strs(out@) =~= stale_entries(s.take(i + 1), today).map_values(|iv: IntervalV| stale_warning_text(iv)));
        i += 1;
    }
    assert(s.take(intervals.len() as int) =~= s);
    out
}

/// The legend of a chart: a colored dot and a label for each series.
pub open spec fn legend_text(items: Seq<(Seq<char>, Seq<char>)>) -> Seq<char> {
    "<div class=\"legend\">"@ + legend_items(items) + "</div>"@
}

/// The entries of a legend, in order.
pub open spec fn legend_items(items: Seq<(Seq<char>, Seq<char>)>) -> Seq<char>
    decreases items.len(),
{
    if items.len() == 0 {
        Seq::empty()
    } else {
        legend_items(items.drop_last()) + "<span class=\"dot\" style=\"background:"@ + items.last().1
            + "\"></span>"@ + esc_text(items.last().0)
    }
}

/// The legend of a chart for `(label, color)` pairs.
pub fn legend(items: &[(&str, &str)]) -> (r: String)
    ensures
        r@ == legend_text(items@.map_values(|p: (&str, &str)| (p.0@, p.1@))),
{
    let ghost v = items@.map_values(|p: (&str, &str)| (p.0@, p.1@));
    let mut out: Vec<char> = Vec::new();
    append_str(&mut out, "<div class=\"legend\">");
    let ghost head = out@;
    let mut i: usize = 0;
    assert(v.take(0) =~= Seq::<(Seq<char>, Seq<char>)>::empty());
    while i < items.len()
        invariant
            i <= items.len(),
            v == items@.map_values(|p: (&str, &str)| (p.0@, p.1@)),
            out@ == head + legend_items(v.take(i as int)),
        decreases items.len() - i,
    {
        let (label, color) = items[i];
        assert(v.take(i + 1).drop_last() =~= v.take(i as int));
        assert(v.take(i + 1).last() == (label@, color@));
        append_str(&mut out, "<span class=\"dot\" style=\"background:");
        append_str(&mut out, color);
        append_str(&mut out, "\"></span>");
        let e = esc(label);
        append_str(&mut out, e.as_str());
        assert(out@ =~= head + legend_items(v.take(i + 1)));
        i += 1;
    }
    assert(v.take(items.len() as int) =~= v);
    append_str(&mut out, "</div>");
    assert(out@ =~= legend_text(v));
    string_of(&out)
}

} // verus!
