//! The text the commands print: entry banners, the log listing, the status
//! of the timer, and the list of presets.
use vstd::prelude::*;

use crate::calendar::{date_text, day_count, day_number, push_date, push_time, time_text, Date, DateTime, Time};
use crate::config::{config_path, first_exact, preset_keys, Config, Env};
use crate::datafile::ivs;
use crate::doctor::{pad_right, pad_right_chars};
use crate::format::{duration_ago, duration_ago_text, duration_str, duration_str_text};
use crate::interval::{meta_text, push_meta, report_minutes, strs, vv, Interval, IntervalV};
use crate::order::{sort_chars, str_le};
use crate::state::abs_seconds;
use crate::text::{append_chars, append_str, chars_eq, chars_of, int_chars, int_str, string_of};

verus! {

// ---------------------------------------------------------------------------
// Padding
// ---------------------------------------------------------------------------

/// `s` padded with spaces on the left to `w` characters (`{:>w}`).
pub open spec fn pad_left(s: Seq<char>, w: nat) -> Seq<char> {
    if s.len() >= w {
        s
    } else {
        Seq::new((w - s.len()) as nat, |i: int| ' ') + s
    }
}

/// `s` padded with spaces on the left to `w` characters.
pub fn pad_left_chars(s: &[char], w: usize) -> (r: Vec<char>)
    ensures
        r@ == pad_left(s@, w as nat),
{
    let mut r: Vec<char> = Vec::new();
    let mut n: usize = s.len();
    while n < w
        invariant
            s.len() <= n,
            n <= w || n == s.len(),
            r@ == Seq::new((n - s.len()) as nat, |i: int| ' '),
        decreases w - n,
    {
        r.push(' ');
        assert(r@ =~= Seq::new((n + 1 - s.len()) as nat, |i: int| ' '));
        n += 1;
    }
    let ghost spaces = r@;
    append_chars(&mut r, s);
    if s.len() >= w {
        assert(r@ =~= s@);
    }
    r
}

// ---------------------------------------------------------------------------
// Entries
// ---------------------------------------------------------------------------

/// `@project #tag...`, with ` !N` when `with_energy` and a level is set.
pub fn meta_string(iv: &Interval, with_energy: bool) -> (r: String)
    ensures
        r@ == meta_text(iv@.project, iv@.tags, if with_energy {
            iv.energy
        } else {
            None
        }),
{
    let mut v: Vec<char> = Vec::new();
    push_meta(&mut v, &iv.project, &iv.tags, if with_energy {
        iv.energy
    } else {
        None
    });
    assert(v@ =~= meta_text(iv@.project, iv@.tags, if with_energy {
        iv.energy
    } else {
        None
    }));
    string_of(&v)
}

/// The lines a command prints about an entry: `label` and the metadata,
/// then, if the entry has a description, `indent` and the description.
pub open spec fn banner_text(label: Seq<char>, indent: Seq<char>, iv: IntervalV, energy: Option<u8>) -> Seq<char> {
    label + meta_text(iv.project, iv.tags, energy) + seq!['\n'] + if iv.description.len() == 0 {
        Seq::empty()
    } else {
        indent + iv.description + seq!['\n']
    }
}

/// The lines a command prints about an entry it has acted on.
pub fn banner(label: &str, indent: &str, iv: &Interval, with_energy: bool) -> (r: String)
    ensures
        r@ == banner_text(label@, indent@, iv@, if with_energy {
            iv.energy
        } else {
            None
        }),
{
    let mut v = chars_of(label);
    push_meta(&mut v, &iv.project, &iv.tags, if with_energy {
        iv.energy
    } else {
        None
    });
    v.push('\n');
    if !iv.description.as_str().is_empty() {
        append_str(&mut v, indent);
        append_str(&mut v, iv.description.as_str());
        v.push('\n');
    }
    assert(v@ =~= banner_text(label@, indent@, iv@, if with_energy {
        iv.energy
    } else {
        None
    }));
    string_of(&v)
}

/// `HH:MM - HH:MM (H:MM)`.
pub open spec fn span_text(start: Time, end: Time, minutes: int) -> Seq<char> {
    time_text(start) + " - "@ + time_text(end) + " ("@ + duration_str_text(minutes) + ")"@
}

/// The time line printed for a closed entry: start, end and length.
pub fn span_line(start: Time, end: Time, minutes: i64) -> (r: String)
    ensures
        r@ == span_text(start, end, minutes as int),
{
    let mut v: Vec<char> = Vec::new();
    push_time(&mut v, start);
    append_str(&mut v, " - ");
    push_time(&mut v, end);
    append_str(&mut v, " (");
    let d = duration_str(minutes);
    append_str(&mut v, d.as_str());
    append_str(&mut v, ")");
    assert(v@ =~= span_text(start, end, minutes as int));
    string_of(&v)
}

/// The note printed when a stopped timer had started on an earlier day.
pub open spec fn midnight_note_text(iv: IntervalV) -> Seq<char> {
    "note: timer crossed midnight (started "@ + time_text(iv.start) + " on "@ + date_text(iv.date)
        + ")"@
}

/// The note printed when a stopped timer had started on an earlier day.
pub fn midnight_note(iv: &Interval) -> (r: String)
    ensures
        r@ == midnight_note_text(iv@),
{
    let mut v: Vec<char> = Vec::new();
    append_str(&mut v, "note: timer crossed midnight (started ");
    push_time(&mut v, iv.start);
    append_str(&mut v, " on ");
    push_date(&mut v, iv.date);
    append_str(&mut v, ")");
    assert(v@ =~= midnight_note_text(iv@));
    string_of(&v)
}

// ---------------------------------------------------------------------------
// The log
// ---------------------------------------------------------------------------

/// The end time in the log, or dots while running.
pub open spec fn log_end(iv: IntervalV) -> Seq<char> {
    match iv.end {
        Some(e) => time_text(e),
        None => "...  "@,
    }
}

/// The description in the log, set off by two spaces.
pub open spec fn log_desc(iv: IntervalV) -> Seq<char> {
    if iv.description.len() == 0 {
        Seq::empty()
    } else {
        seq![' ', ' '] + iv.description
    }
}

/// The length in the log, or `--` for an entry that counts nothing.
pub open spec fn log_dur(iv: IntervalV, today: Date, now: Time) -> Seq<char> {
    match report_minutes(iv, today, now) {
        Some(d) => duration_str_text(d as int),
        None => "--"@,
    }
}

/// The note after the length: running, or stale and not counted.
pub open spec fn log_note(iv: IntervalV, today: Date, now: Time) -> Seq<char> {
    match report_minutes(iv, today, now) {
        Some(d) => if iv.end is None {
            " (running)"@
        } else {
            Seq::empty()
        },
        None => " (stale; not counted)"@,
    }
}

/// The line of one entry in the log: times, metadata, description, and the
/// minutes it counts (or why it counts none).
pub open spec fn log_row(iv: IntervalV, today: Date, now: Time) -> Seq<char> {
    seq![' ', ' '] + time_text(iv.start) + " - "@ + log_end(iv) + seq![' ', ' '] + pad_right(
        meta_text(iv.project, iv.tags, iv.energy),
        30,
    ) + pad_right(log_desc(iv), 30) + seq![' '] + pad_left(log_dur(iv, today, now), 5) + log_note(
        iv,
        today,
        now,
    ) + seq!['\n']
}

/// The rows of the log, in order.
pub open spec fn log_rows(s: Seq<IntervalV>, today: Date, now: Time) -> Seq<char>
    decreases s.len(),
{
    if s.len() == 0 {
        Seq::empty()
    } else {
        log_rows(s.drop_last(), today, now) + log_row(s.last(), today, now)
    }
}

/// The minutes the log counts.
pub open spec fn log_total(s: Seq<IntervalV>, today: Date, now: Time) -> int
    decreases s.len(),
{
    if s.len() == 0 {
        0
    } else {
        log_total(s.drop_last(), today, now) + match report_minutes(s.last(), today, now) {
            Some(d) => d as int,
            None => 0,
        }
    }
}

/// The rule above the total.
pub open spec fn rule() -> Seq<char> {
    "─────"@
}

/// The whole log of a period: the label, then each entry and the total, or
/// a note that there are no entries.
pub open spec fn log_text_spec(label: Seq<char>, s: Seq<IntervalV>, today: Date, now: Time) -> Seq<char> {
    if s.len() == 0 {
        label + seq!['\n'] + "  (no entries)"@ + seq!['\n']
    } else {
        label + seq!['\n', '\n'] + log_rows(s, today, now) + seq![' ', ' '] + pad_left(rule(), 76)
            + seq!['\n'] + seq![' ', ' '] + pad_left(duration_str_text(log_total(s, today, now)), 76)
            + seq!['\n']
    }
}

proof fn lemma_log_total_bounds(s: Seq<IntervalV>, today: Date, now: Time)
    requires
        forall|j: int| 0 <= j < s.len() ==> (#[trigger] s[j]).wf(),
        now.wf(),
    ensures
        0 <= log_total(s, today, now) <= 1440 * s.len(),
    decreases s.len(),
{
    if s.len() > 0 {
        assert(s.last() == s[s.len() - 1]);
        lemma_log_total_bounds(s.drop_last(), today, now);
    }
}

fn log_head(iv: &Interval) -> (r: Vec<char>)
    ensures
        r@ == seq![' ', ' '] + time_text(iv.start) + " - "@ + log_end(iv@) + seq![' ', ' '],
{
    let mut out: Vec<char> = Vec::new();
    out.push(' ');
    out.push(' ');
    push_time(&mut out, iv.start);
    append_str(&mut out, " - ");
    match iv.end {
        Some(e) => push_time(&mut out, e),
        None => append_str(&mut out, "...  "),
    }
    out.push(' ');
    out.push(' ');
    assert(out@ =~= seq![' ', ' '] + time_text(iv.start) + " - "@ + log_end(iv@) + seq![' ', ' ']);
    out
}

fn log_middle(iv: &Interval) -> (r: Vec<char>)
    ensures
        r@ == pad_right(meta_text(iv@.project, iv@.tags, iv@.energy), 30) + pad_right(log_desc(iv@), 30),
{
    let mut meta: Vec<char> = Vec::new();
    push_meta(&mut meta, &iv.project, &iv.tags, iv.energy);
    assert(meta@ =~= meta_text(iv@.project, iv@.tags, iv@.energy));
    let mut out = pad_right_chars(&meta, 30);
    let mut desc: Vec<char> = Vec::new();
    if !iv.description.as_str().is_empty() {
        desc.push(' ');
        desc.push(' ');
        append_str(&mut desc, iv.description.as_str());
    }
    assert(desc@ =~= log_desc(iv@));
    let dp = pad_right_chars(&desc, 30);
    append_chars(&mut out, &dp);
    out
}

fn log_tail(iv: &Interval, today: Date, now: Time) -> (r: (Vec<char>, Option<i64>))
    requires
        iv@.wf(),
        now.wf(),
    ensures
        r.0@ == seq![' '] + pad_left(log_dur(iv@, today, now), 5) + log_note(iv@, today, now) + seq![
            '\n',
        ],
        r.1 == report_minutes(iv@, today, now),
        r.1 matches Some(d) ==> 0 <= d < 1440,
{
    let mut out: Vec<char> = Vec::new();
    out.push(' ');
    let counted = iv.report_duration(today, now);
    match counted {
        Some(d) => {
            let ds = duration_str(d);
            let dc = chars_of(ds.as_str());
            let dpad = pad_left_chars(&dc, 5);
            append_chars(&mut out, &dpad);
            if iv.end.is_none() {
                append_str(&mut out, " (running)");
            }
        },
        None => {
            let dc = chars_of("--");
            let dpad = pad_left_chars(&dc, 5);
            append_chars(&mut out, &dpad);
            append_str(&mut out, " (stale; not counted)");
        },
    }
    out.push('\n');
    assert(out@ =~= seq![' '] + pad_left(log_dur(iv@, today, now), 5) + log_note(iv@, today, now)
        + seq!['\n']);
    (out, counted)
}

fn log_row_exec(out: &mut Vec<char>, iv: &Interval, today: Date, now: Time) -> (r: Option<i64>)
    requires
        iv@.wf(),
        now.wf(),
    ensures
        final(out)@ == old(out)@ + log_row(iv@, today, now),
        r == report_minutes(iv@, today, now),
        r matches Some(d) ==> 0 <= d < 1440,
{
    let ghost o0 = out@;
    let h = log_head(iv);
    let m = log_middle(iv);
    let (t, counted) = log_tail(iv, today, now);
    append_chars(out, &h);
    append_chars(out, &m);
    append_chars(out, &t);
    assert(out@ =~= o0 + log_row(iv@, today, now));
    counted
}

/// The log of the entries of a period labelled `label`, as printed; a
/// running entry counts up to `now` on `today`, and one from an earlier day
/// counts nothing.
pub fn log_text(label: &str, intervals: &Vec<Interval>, today: Date, now: Time) -> (r: String)
    requires
        forall|i: int| 0 <= i < intervals@.len() ==> (#[trigger] intervals@[i])@.wf(),
        now.wf(),
        intervals@.len() * 1440 <= i64::MAX,
    ensures
        r@ == log_text_spec(label@, ivs(intervals@), today, now),
{
    let ghost s = ivs(intervals@);
    let mut out = chars_of(label);
    if intervals.len() == 0 {
        out.push('\n');
        append_str(&mut out, "  (no entries)");
        out.push('\n');
        assert(out@ =~= log_text_spec(label@, s, today, now));
        return string_of(&out);
    }
    out.push('\n');
    out.push('\n');
    let ghost head = out@;
    let mut total: i64 = 0;
    let mut i: usize = 0;
    assert(s.take(0) =~= Seq::<IntervalV>::empty());
    while i < intervals.len()
        invariant
            i <= intervals.len(),
            s == ivs(intervals@),
            forall|j: int| 0 <= j < intervals@.len() ==> (#[trigger] intervals@[j])@.wf(),
            now.wf(),
            intervals@.len() * 1440 <= i64::MAX,
            out@ == head + log_rows(s.take(i as int), today, now),
            total == log_total(s.take(i as int), today, now),
        decreases intervals.len() - i,
    {
        let ghost t = s.take(i + 1);
        assert(t.drop_last() =~= s.take(i as int));
        assert(t.last() == intervals@[i as int]@);
        assert forall|j: int| 0 <= j < s.take(i as int).len() implies (#[trigger] s.take(i as int)[j]).wf() by {
            assert(s.take(i as int)[j] == intervals@[j]@);
        }
        proof {
            lemma_log_total_bounds(s.take(i as int), today, now);
        }
        let c = log_row_exec(&mut out, &intervals[i], today, now);
        match c {
            Some(d) => {
                total = total + d;
            },
            None => {},
        }
        assert(out@ =~= head + log_rows(t, today, now));
        i += 1;
    }
    assert(s.take(intervals.len() as int) =~= s);
    out.push(' ');
    out.push(' ');
    let r = chars_of("─────");
    let rp = pad_left_chars(&r, 76);
    append_chars(&mut out, &rp);
    out.push('\n');
    out.push(' ');
    out.push(' ');
    let ts = duration_str(total);
    let tc = chars_of(ts.as_str());
    let tp = pad_left_chars(&tc, 76);
    append_chars(&mut out, &tp);
    out.push('\n');
    assert(out@ =~= log_text_spec(label@, s, today, now));
    string_of(&out)
}

// ---------------------------------------------------------------------------
// Status
// ---------------------------------------------------------------------------

/// Seconds from the start of a running entry to `now`.
pub open spec fn elapsed_since(iv: IntervalV, now: DateTime) -> int {
    abs_seconds(now) - abs_seconds(DateTime { date: iv.date, second: (iv.start.mins() * 60) as u32 })
}

/// What `status` prints while a timer runs.
pub open spec fn running_status_text(iv: IntervalV, now: DateTime) -> Seq<char> {
    banner_text("Tracking: "@, "          "@, iv, None) + "Started:  "@ + time_text(iv.start) + " ("@
        + duration_ago_text(elapsed_since(iv, now)) + " ago)"@ + seq!['\n']
}

/// The warning about a timer started on an earlier day.
pub open spec fn runaway_warning_text(iv: IntervalV, today: Date) -> Seq<char> {
    let days = day_number(today) - day_number(iv.date);
    "⚠  open timer started "@ + int_str(days) + " day"@ + (if days == 1 {
        Seq::empty()
    } else {
        "s"@
    }) + " ago ("@ + date_text(iv.date) + "). Likely a runaway — `teum stop` or `teum cancel`."@
}

/// What `status` prints when nothing runs.
pub open spec fn idle_status_text(last: Option<IntervalV>) -> Seq<char> {
    "No active tracking."@ + seq!['\n'] + match last {
        Some(l) => "Last:     "@ + time_text(l.start) + " - "@ + match l.end {
            Some(e) => time_text(e),
            None => Seq::empty(),
        } + " | "@ + meta_text(l.project, l.tags, None) + seq!['\n'],
        None => Seq::empty(),
    }
}

/// What `status` prints, and the warning it gives for a timer left running
/// since an earlier day.
pub fn status_text(open: Option<&Interval>, last: Option<&Interval>, now: DateTime) -> (r: (
    String,
    Option<String>,
))
    requires
        now.wf(),
        open matches Some(iv) ==> iv@.wf(),
        last matches Some(l) ==> l@.wf(),
    ensures
        match open {
            Some(iv) => r.0@ == running_status_text(iv@, now) && match r.1 {
                Some(w) => iv.date.lt(now.date) && w@ == runaway_warning_text(iv@, now.date),
                None => !iv.date.lt(now.date),
            },
            None => r.0@ == idle_status_text(
                match last {
                    Some(l) => Some(l@),
                    None => None,
                },
            ) && r.1 is None,
        },
{
    match open {
        Some(iv) => {
            let b = banner("Tracking: ", "          ", iv, false);
            let mut v = chars_of(b.as_str());
            append_str(&mut v, "Started:  ");
            push_time(&mut v, iv.start);
            append_str(&mut v, " (");
            let start = crate::calendar::DateTime::at(iv.date, iv.start);
            let now_s = (day_count(now.date) as i64) * 86400 + (now.second as i64);
            let start_s = (day_count(start.date) as i64) * 86400 + (start.second as i64);
            let ago = duration_ago(now_s - start_s);
            append_str(&mut v, ago.as_str());
            append_str(&mut v, " ago)");
            v.push('\n');
            assert(v@ =~= running_status_text(iv@, now));
            let warning = if iv.date.before(&now.date) {
                let days = (day_count(now.date) as i64) - (day_count(iv.date) as i64);
                let mut w: Vec<char> = Vec::new();
                append_str(&mut w, "⚠  open timer started ");
                let d = int_chars(days);
                append_chars(&mut w, &d);
                append_str(&mut w, " day");
                if days != 1 {
                    append_str(&mut w, "s");
                }
                append_str(&mut w, " ago (");
                push_date(&mut w, iv.date);
                append_str(&mut w, "). Likely a runaway — `teum stop` or `teum cancel`.");
                assert(w@ =~= runaway_warning_text(iv@, now.date));
                Some(string_of(&w))
            } else {
                None
            };
            (string_of(&v), warning)
        },
        None => {
            let mut v = chars_of("No active tracking.");
            v.push('\n');
            match last {
                Some(l) => {
                    append_str(&mut v, "Last:     ");
                    push_time(&mut v, l.start);
                    append_str(&mut v, " - ");
                    match l.end {
                        Some(e) => push_time(&mut v, e),
                        None => {},
                    }
                    append_str(&mut v, " | ");
                    push_meta(&mut v, &l.project, &l.tags, None);
                    v.push('\n');
                },
                None => {},
            }
            assert(v@ =~= idle_status_text(
                match last {
                    Some(l) => Some(l@),
                    None => None,
                },
            ));
            (string_of(&v), None)
        },
    }
}

// ---------------------------------------------------------------------------
// Presets
// ---------------------------------------------------------------------------

/// The number of bytes a character takes in UTF-8.
pub open spec fn utf8_width(c: char) -> nat {
    if (c as u32) < 0x80 {
        1
    } else if (c as u32) < 0x800 {
        2
    } else if (c as u32) < 0x10000 {
        3
    } else {
        4
    }
}

/// The length of a string in UTF-8 bytes (`str::len`).
pub open spec fn utf8_len(s: Seq<char>) -> nat
    decreases s.len(),
{
    if s.len() == 0 {
        0
    } else {
        utf8_len(s.drop_last()) + utf8_width(s.last())
    }
}

/// The largest byte length among `ks`, or 0.
pub open spec fn max_len(ks: Seq<Seq<char>>) -> nat
    decreases ks.len(),
{
    if ks.len() == 0 {
        0
    } else {
        let m = max_len(ks.drop_last());
        if utf8_len(ks.last()) > m {
            utf8_len(ks.last())
        } else {
            m
        }
    }
}

/// The usage lines `start` prints when given nothing to start.
pub open spec fn usage_text() -> Seq<char> {
    "usage: teum start @project [#tags] [description]"@ + seq!['\n']
        + "       teum start -p <preset> [description]"@ + seq!['\n']
}

/// The line for the preset `name`, its name padded to `width`.
pub open spec fn preset_line(c: &Config, name: Seq<char>, width: nat) -> Seq<char> {
    let i = match first_exact(preset_keys(c.presets@), name) {
        Some(i) => i,
        None => 0,
    };
    let p = c.presets@[i].1;
    seq![' ', ' '] + pad_right(name, width) + seq![' ', ' '] + meta_text(p.project@, strs(p.tags@), None)
        + seq!['\n']
}

/// The lines for the presets `names`, in order.
pub open spec fn preset_lines(c: &Config, names: Seq<Seq<char>>, width: nat) -> Seq<char>
    decreases names.len(),
{
    if names.len() == 0 {
        Seq::empty()
    } else {
        preset_lines(c, names.drop_last(), width) + preset_line(c, names.last(), width)
    }
}

/// What `start` prints when given nothing to start: the usage, then the
/// presets in name order, or where to configure some.
pub open spec fn presets_text_spec(c: &Config, config_file: Seq<char>) -> Seq<char> {
    let names = preset_keys(c.presets@).sort_by(str_le());
    usage_text() + if c.presets@.len() == 0 {
        seq!['\n'] + "No presets configured. Add some to "@ + config_file + seq!['\n']
    } else {
        seq!['\n'] + "Presets:"@ + seq!['\n'] + preset_lines(c, names, max_len(preset_keys(c.presets@)))
    }
}

/// The byte length of a prefix is at most that of the whole.
proof fn lemma_utf8_len_prefix(s: Seq<char>, i: int)
    requires
        0 <= i <= s.len(),
    ensures
        utf8_len(s.take(i)) <= utf8_len(s),
    decreases s.len() - i,
{
    if i < s.len() {
        lemma_utf8_len_prefix(s, i + 1);
        assert(s.take(i + 1).drop_last() =~= s.take(i));
    } else {
        assert(s.take(i) =~= s);
    }
}

fn utf8_len_exec(s: &[char]) -> (r: usize)
    requires
        utf8_len(s@) <= usize::MAX,
    ensures
        r == utf8_len(s@),
{
    let mut n: usize = 0;
    let mut i: usize = 0;
    assert(s@.take(0) =~= Seq::<char>::empty());
    while i < s.len()
        invariant
            i <= s.len(),
            utf8_len(s@) <= usize::MAX,
            n == utf8_len(s@.take(i as int)),
        decreases s.len() - i,
    {
        assert(s@.take(i + 1).drop_last() =~= s@.take(i as int));
        assert(s@.take(i + 1).last() == s@[i as int]);
        proof {
            lemma_utf8_len_prefix(s@, i + 1);
        }
        let c = s[i] as u32;
        n = n + if c < 0x80 {
            1
        } else if c < 0x800 {
            2
        } else if c < 0x10000 {
            3
        } else {
            4
        };
        i += 1;
    }
    assert(s@.take(s.len() as int) =~= s@);
    n
}

/// The index of the preset named `name`.
fn preset_index(c: &Config, name: &[char]) -> (r: usize)
    requires
        c.presets@.len() > 0,
    ensures
        r < c.presets@.len(),
        r as int == match first_exact(preset_keys(c.presets@), name@) {
            Some(i) => i,
            None => 0,
        },
{
    let ghost keys = preset_keys(c.presets@);
    let mut i: usize = 0;
    assert(keys.take(0) =~= Seq::<Seq<char>>::empty());
    while i < c.presets.len()
        invariant
            keys == preset_keys(c.presets@),
            i <= c.presets.len(),
            first_exact(keys.take(i as int), name@) is None,
        decreases c.presets.len() - i,
    {
        assert(keys.take(i + 1).drop_last() =~= keys.take(i as int));
        assert(keys.take(i + 1).last() == c.presets@[i as int].0@);
        let k = chars_of(c.presets[i].0.as_str());
        if chars_eq(&k, name) {
            proof {
                crate::config::lemma_first_exact_prefix(keys, name@, i as int + 1);
            }
            return i;
        }
        i += 1;
    }
    assert(keys.take(c.presets.len() as int) =~= keys);
    0
}

/// What `start` prints when given nothing to start: the usage, then each
/// preset with its project and tags, in name order; with no presets, where
/// to add some (the configuration file, which needs a home directory). The
/// names are aligned by their length in bytes, which, as `str::len` gives
/// it, fits in `usize`.
pub fn presets_text(config: &Config, env: &Env) -> (r: Result<String, String>)
    requires
        forall|i: int| 0 <= i < config.presets@.len() ==> utf8_len((#[trigger] config.presets@[i]).0@) <= usize::MAX,
    ensures
        config.presets@.len() > 0 ==> (r matches Ok(t) && t@ == presets_text_spec(config, Seq::empty())),
        config.presets@.len() == 0 ==> match crate::config::config_dir_spec(*env) {
            Some(p) => r matches Ok(t) && t@ == presets_text_spec(
                config,
                crate::config::path_join(p, "config.toml"@),
            ),
            None => r matches Err(e) && e@ == crate::config::no_home_msg(),
        },
{
    let mut out = chars_of("usage: teum start @project [#tags] [description]");
    out.push('\n');
    append_str(&mut out, "       teum start -p <preset> [description]");
    out.push('\n');
    if config.presets.len() == 0 {
        let path = config_path(env)?;
        out.push('\n');
        append_str(&mut out, "No presets configured. Add some to ");
        append_str(&mut out, path.as_str());
        out.push('\n');
        assert(out@ =~= presets_text_spec(config, path@));
        return Ok(string_of(&out));
    }
    out.push('\n');
    append_str(&mut out, "Presets:");
    out.push('\n');
    let mut names: Vec<Vec<char>> = Vec::new();
    let mut i: usize = 0;
    while i < config.presets.len()
        invariant
            i <= config.presets.len(),
            vv(names@) == preset_keys(config.presets@).take(i as int),
        decreases config.presets.len() - i,
    {
        let ghost n0 = vv(names@);
        names.push(chars_of(config.presets[i].0.as_str()));
        assert(vv(names@) =~= n0.push(config.presets@[i as int].0@));
        assert(preset_keys(config.presets@).take(i + 1) =~= preset_keys(config.presets@).take(i as int).push(config.presets@[i as int].0@));
        i += 1;
    }
    assert(preset_keys(config.presets@).take(config.presets.len() as int) =~= preset_keys(config.presets@));
    let sorted = sort_chars(&names);
    let ghost sv = vv(sorted@);
    assert(sv == preset_keys(config.presets@).sort_by(str_le()));
    let ghost keys = preset_keys(config.presets@);
    let mut width: usize = 0;
    let mut j: usize = 0;
    assert(keys.take(0) =~= Seq::<Seq<char>>::empty());
    while j < config.presets.len()
        invariant
            j <= config.presets.len(),
            keys == preset_keys(config.presets@),
            width == max_len(keys.take(j as int)),
            forall|i: int| 0 <= i < config.presets@.len() ==> utf8_len((#[trigger] config.presets@[i]).0@) <= usize::MAX,
        decreases config.presets.len() - j,
    {
        assert(keys.take(j + 1).drop_last() =~= keys.take(j as int));
        assert(keys.take(j + 1).last() == config.presets@[j as int].0@);
        let name = chars_of(config.presets[j].0.as_str());
        let n = utf8_len_exec(&name);
        if n > width {
            width = n;
        }
        j += 1;
    }
    assert(keys.take(config.presets.len() as int) =~= keys);
    let ghost head = out@;
    let mut k: usize = 0;
    while k < sorted.len()
        invariant
            k <= sorted.len(),
            sv == vv(sorted@),
            config.presets@.len() > 0,
            out@ == head + preset_lines(config, sv.take(k as int), width as nat),
        decreases sorted.len() - k,
    {
        assert(sv.take(k + 1).drop_last() =~= sv.take(k as int));
        assert(sv.take(k + 1).last() == sorted@[k as int]@);
        let idx = preset_index(config, &sorted[k]);
        let p = &config.presets[idx].1;
        out.push(' ');
        out.push(' ');
        let padded = pad_right_chars(&sorted[k], width);
        append_chars(&mut out, &padded);
        out.push(' ');
        out.push(' ');
        push_meta(&mut out, &p.project, &p.tags, None);
        out.push('\n');
        assert(out@ =~= head + preset_lines(config, sv.take(k + 1), width as nat));
        k += 1;
    }
    assert(sv.take(sorted.len() as int) =~= sv);
    Ok(string_of(&out))
}

} // verus!
