//! Checks of the data files for entries that look like mistakes rather than
//! records: forgotten timers, overlaps, misfiled weeks, unreadable files.
//! Nothing here changes the data; the findings are only reported.
use vstd::prelude::*;

use crate::calendar::{date_text, day_count, day_number, lemma_day_number_lt, push_date, push_time, time_text, Date};
use crate::datafile::{iso_of, ivs, week_filename, week_name};
use crate::format::{duration_str, duration_str_text};
use crate::interval::{end_text, Interval, IntervalV};
use crate::text::{append_chars, append_str, chars_eq, chars_of, dec, dec_chars, owned, string_of};

verus! {

/// A same-day entry this long or longer (in hours) is taken for a timer left running.
pub open spec fn long_same_day() -> int {
    12
}

/// An entry that crosses midnight and lasts this long or longer (in hours) is
/// taken for a timer left running.
pub open spec fn long_overnight() -> int {
    6
}

/// One problem: the file it is in, the entry it is about, and what is wrong.
#[derive(Debug)]
pub struct Finding {
    pub file: String,
    pub entry: String,
    pub note: String,
}

impl View for Finding {
    type V = (Seq<char>, Seq<char>, Seq<char>);

    open spec fn view(&self) -> (Seq<char>, Seq<char>, Seq<char>) {
        (self.file@, self.entry@, self.note@)
    }
}

impl Finding {
    /// A finding about `entry` in the file `file`.
    pub fn new(file: &str, entry: String, note: String) -> (r: Finding)
        ensures
            r@ == (file@, entry@, note@),
    {
        Finding { file: owned(file), entry, note }
    }
}

/// The contents of a list of findings.
pub open spec fn findings_view(v: Seq<Finding>) -> Seq<(Seq<char>, Seq<char>, Seq<char>)> {
    v.map_values(|f: Finding| f@)
}

/// `<date> <start> - <end> @<project>`: enough to find the entry in its file.
pub open spec fn describe_text(iv: IntervalV) -> Seq<char> {
    date_text(iv.date) + seq![' '] + time_text(iv.start) + " - "@ + end_text(iv.end) + " @"@
        + iv.project
}

/// Describes an entry compactly enough to find it by eye in its week file.
pub fn describe(iv: &Interval) -> (r: String)
    ensures
        r@ == describe_text(iv@),
{
    let mut v: Vec<char> = Vec::new();
    push_date(&mut v, iv.date);
    v.push(' ');
    push_time(&mut v, iv.start);
    append_str(&mut v, " - ");
    match iv.end {
        Some(e) => push_time(&mut v, e),
        None => append_str(&mut v, "     "),
    }
    proof {
        reveal_strlit("     ");
    }
    append_str(&mut v, " @");
    append_str(&mut v, iv.project.as_str());
    assert(v@ =~= describe_text(iv@));
    string_of(&v)
}

// ---------------------------------------------------------------------------
// One entry
// ---------------------------------------------------------------------------

/// The note for an entry that sits in the wrong week file.
pub open spec fn misfiled_note(iv: IntervalV) -> Seq<char> {
    "belongs in "@ + week_name(iso_of(iv.date).0, iso_of(iv.date).1)
}

/// The note for a running entry from an earlier day.
pub open spec fn stale_note() -> Seq<char> {
    "open timer on a past day; it counts as no time at all"@
}

/// The note for an entry that starts and ends at the same minute.
pub open spec fn zero_note() -> Seq<char> {
    "starts and ends at the same minute"@
}

/// The entry crosses midnight.
pub open spec fn overnight(iv: IntervalV) -> bool {
    iv.end matches Some(e) && e.mins() < iv.start.mins()
}

/// The note for an entry so long it is likely a forgotten timer.
pub open spec fn runaway_note(iv: IntervalV, d: int) -> Seq<char> {
    (if overnight(iv) {
        "overnight "@
    } else {
        Seq::empty()
    }) + "run of "@ + duration_str_text(d) + " — likely a forgotten timer"@
}

/// What is wrong with one entry on its own, in the order the notes are made.
pub open spec fn entry_notes(name: Seq<char>, iv: IntervalV, today: Date) -> Seq<Seq<char>> {
    let misfiled = if week_name(iso_of(iv.date).0, iso_of(iv.date).1) != name {
        seq![misfiled_note(iv)]
    } else {
        Seq::empty()
    };
    let rest = if iv.end is None && iv.date.lt(today) {
        seq![stale_note()]
    } else {
        match iv.duration() {
            None => Seq::empty(),
            Some(d) => if d == 0 {
                seq![zero_note()]
            } else if d / 60 >= (if overnight(iv) {
                long_overnight()
            } else {
                long_same_day()
            }) {
                seq![runaway_note(iv, d)]
            } else {
                Seq::empty()
            },
        }
    };
    misfiled + rest
}

/// The findings for the notes on one entry.
pub open spec fn with_entry(name: Seq<char>, iv: IntervalV, notes: Seq<Seq<char>>) -> Seq<
    (Seq<char>, Seq<char>, Seq<char>),
> {
    notes.map_values(|n: Seq<char>| (name, describe_text(iv), n))
}

fn push_finding(findings: &mut Vec<Finding>, name: &str, entry: &String, note: String)
    ensures
        findings_view(final(findings)@) == findings_view(old(findings)@).push(
            (name@, entry@, note@),
        ),
{
    let ghost f0 = findings_view(findings@);
    findings.push(Finding::new(name, entry.clone(), note));
    assert(findings_view(findings@) =~= f0.push((name@, entry@, note@)));
}

/// Appends to `findings` what is wrong with `iv` on its own, as found in the
/// file `name` on `today`: a wrong week file, a running entry from a past day,
/// a zero-length entry, or one so long it is likely a forgotten timer.
pub fn check_entry(name: &str, iv: &Interval, today: Date, findings: &mut Vec<Finding>)
    requires
        iv@.wf(),
    ensures
        findings_view(final(findings)@) == findings_view(old(findings)@) + with_entry(
            name@,
            iv@,
            entry_notes(name@, iv@, today),
        ),
{
    let ghost f0 = findings_view(findings@);
    let ghost notes = entry_notes(name@, iv@, today);
    let desc = describe(iv);
    let expected = week_filename(iv.date);
    let misfiled = !chars_eq(&chars_of(expected.as_str()), &chars_of(name));
    let ghost first: Seq<Seq<char>> = if misfiled {
        seq![misfiled_note(iv@)]
    } else {
        Seq::empty()
    };
    if misfiled {
        let mut v: Vec<char> = Vec::new();
        append_str(&mut v, "belongs in ");
        append_str(&mut v, expected.as_str());
        push_finding(findings, name, &desc, string_of(&v));
    }
    assert(findings_view(findings@) =~= f0 + with_entry(name@, iv@, first));
    let ghost f1 = findings_view(findings@);
    if iv.end.is_none() && iv.date.before(&today) {
        push_finding(findings, name, &desc, owned("open timer on a past day; it counts as no time at all"));
        assert(notes =~= first + seq![stale_note()]);
        assert(with_entry(name@, iv@, notes) =~= with_entry(name@, iv@, first) + seq![
            (name@, describe_text(iv@), stale_note()),
        ]);
        return;
    }
    match iv.duration() {
        None => {
            assert(notes =~= first);
        },
        Some(d) => {
            if d == 0 {
                push_finding(findings, name, &desc, owned("starts and ends at the same minute"));
                assert(notes =~= first + seq![zero_note()]);
                assert(with_entry(name@, iv@, notes) =~= with_entry(name@, iv@, first) + seq![
                    (name@, describe_text(iv@), zero_note()),
                ]);
                return;
            }
            let is_overnight = match iv.end {
                Some(e) => e.minutes() < iv.start.minutes(),
                None => false,
            };
            let limit: i64 = if is_overnight {
                6
            } else {
                12
            };
            if d / 60 >= limit {
                let mut v: Vec<char> = Vec::new();
                if is_overnight {
                    append_str(&mut v, "overnight ");
                }
                append_str(&mut v, "run of ");
                let hm = duration_str(d);
                append_str(&mut v, hm.as_str());
                append_str(&mut v, " — likely a forgotten timer");
                assert(v@ =~= runaway_note(iv@, d as int));
                push_finding(findings, name, &desc, string_of(&v));
                assert(notes =~= first + seq![runaway_note(iv@, d as int)]);
                assert(with_entry(name@, iv@, notes) =~= with_entry(name@, iv@, first) + seq![
                    (name@, describe_text(iv@), runaway_note(iv@, d as int)),
                ]);
            } else {
                assert(notes =~= first);
            }
        },
    }
}

// ---------------------------------------------------------------------------
// Consecutive entries
// ---------------------------------------------------------------------------

/// The minute an entry starts, counted across days.
pub open spec fn start_minute(iv: IntervalV) -> int {
    day_number(iv.date) * 1440 + iv.start.mins()
}

/// The minute an entry ends, counted across days; a running entry ends where it starts.
pub open spec fn end_minute(iv: IntervalV) -> int {
    start_minute(iv) + match iv.duration() {
        Some(d) => d,
        None => 0,
    }
}

/// The note for an entry that comes after a later one.
pub open spec fn disorder_note() -> Seq<char> {
    "recorded after a later entry; the file is out of order"@
}

/// What is wrong with `cur` given the entry before it in the same file.
pub open spec fn pair_note(prev: IntervalV, cur: IntervalV) -> Option<Seq<char>> {
    if start_minute(cur) < start_minute(prev) {
        Some(disorder_note())
    } else if start_minute(cur) < end_minute(prev) {
        Some("overlaps the previous entry by "@ + duration_str_text(end_minute(prev) - start_minute(cur)))
    } else {
        None
    }
}

/// The findings for every pair of consecutive entries of a file, in order.
pub open spec fn sequence_findings(name: Seq<char>, v: Seq<IntervalV>) -> Seq<
    (Seq<char>, Seq<char>, Seq<char>),
>
    decreases v.len(),
{
    if v.len() < 2 {
        Seq::empty()
    } else {
        sequence_findings(name, v.drop_last()) + match pair_note(v[v.len() - 2], v.last()) {
            Some(n) => seq![(name, describe_text(v.last()), n)],
            None => Seq::empty(),
        }
    }
}

/// Entry `a` starts before entry `b`: an earlier date, or the same date
/// and an earlier start time.
pub open spec fn earlier_start(a: IntervalV, b: IntervalV) -> bool {
    a.date.lt(b.date) || (a.date == b.date && a.start.mins() < b.start.mins())
}

proof fn lemma_start_minute_order(a: IntervalV, b: IntervalV)
    requires
        a.wf(),
        b.wf(),
    ensures
        start_minute(a) < start_minute(b) <==> earlier_start(a, b),
{
    lemma_day_number_lt(a.date, b.date);
    lemma_day_number_lt(b.date, a.date);
}

proof fn lemma_notes_differ(x: Seq<char>)
    ensures
        ("overlaps the previous entry by "@ + x) != disorder_note(),
{
    reveal_strlit("recorded after a later entry; the file is out of order");
    reveal_strlit("overlaps the previous entry by ");
    assert(("overlaps the previous entry by "@ + x)[0] == 'o');
    assert(disorder_note()[0] == 'r');
}

/// The last pair of a file is reported out of order exactly when its second
/// entry starts before its first.
proof fn lemma_pair_disorder(prev: IntervalV, cur: IntervalV)
    requires
        prev.wf(),
        cur.wf(),
    ensures
        pair_note(prev, cur) == Some(disorder_note()) <==> earlier_start(cur, prev),
{
    lemma_start_minute_order(cur, prev);
    lemma_notes_differ(duration_str_text(end_minute(prev) - start_minute(cur)));
}

/// A file is reported out of order at an entry exactly when that entry
/// starts before the one above it: an earlier date, or the same date and an
/// earlier start time. An entry on a later date is never out of order,
/// whatever its time.
#[verifier::spinoff_prover]
pub proof fn law_sequence_order(name: Seq<char>, v: Seq<IntervalV>)
    requires
        forall|k: int| 0 <= k < v.len() ==> (#[trigger] v[k]).wf(),
    ensures
        forall|k: int|
            1 <= k < v.len() && earlier_start(#[trigger] v[k], v[k - 1]) ==> sequence_findings(name, v).contains(
                (name, describe_text(v[k]), disorder_note()),
            ),
        forall|f: (Seq<char>, Seq<char>, Seq<char>)|
            #[trigger] sequence_findings(name, v).contains(f) && f.2 == disorder_note() ==> exists|k: int|
                1 <= k < v.len() && f.1 == describe_text(#[trigger] v[k]) && earlier_start(v[k], v[k - 1]),
    decreases v.len(),
{
    if v.len() >= 2 {
        let dl = v.drop_last();
        let n = v.len() - 1;
        assert forall|k: int| 0 <= k < dl.len() implies (#[trigger] dl[k]).wf() by {
            assert(dl[k] == v[k]);
        }
        law_sequence_order(name, dl);
        let prev = v[n - 1];
        let cur = v[n];
        assert(v.last() == cur);
        assert(dl[n - 1] == prev);
        lemma_pair_disorder(prev, cur);
        let rest = sequence_findings(name, dl);
        let tail = match pair_note(prev, cur) {
            Some(x) => seq![(name, describe_text(cur), x)],
            None => Seq::<(Seq<char>, Seq<char>, Seq<char>)>::empty(),
        };
        assert(sequence_findings(name, v) == rest + tail);
        assert forall|k: int|
            1 <= k < v.len() && earlier_start(#[trigger] v[k], v[k - 1]) implies sequence_findings(name, v).contains(
            (name, describe_text(v[k]), disorder_note()),
        ) by {
            if k < n {
                assert(dl[k] == v[k] && dl[k - 1] == v[k - 1]);
                assert(rest.contains((name, describe_text(dl[k]), disorder_note())));
                let i = choose|i: int| 0 <= i < rest.len() && rest[i] == (name, describe_text(dl[k]), disorder_note());
                assert((rest + tail)[i] == rest[i]);
            } else {
                assert((rest + tail)[rest.len() as int] == tail[0]);
            }
        }
        assert forall|f: (Seq<char>, Seq<char>, Seq<char>)|
            #[trigger] sequence_findings(name, v).contains(f) && f.2 == disorder_note() implies exists|k: int|
                1 <= k < v.len() && f.1 == describe_text(#[trigger] v[k]) && earlier_start(v[k], v[k - 1]) by {
            let i = choose|i: int| 0 <= i < (rest + tail).len() && (rest + tail)[i] == f;
            if i < rest.len() {
                assert(rest[i] == f);
                assert(rest.contains(f));
                let k = choose|k: int|
                    1 <= k < dl.len() && f.1 == describe_text(#[trigger] dl[k]) && earlier_start(dl[k], dl[k - 1]);
                assert(dl[k] == v[k] && dl[k - 1] == v[k - 1]);
            } else {
                assert(tail[i - rest.len()] == f);
                assert(f.1 == describe_text(v[n]));
            }
        }
    }
}

/// The law for a file's entries as they were read.
proof fn lemma_sequence_order_read(name: Seq<char>, intervals: Seq<Interval>)
    requires
        forall|i: int| 0 <= i < intervals.len() ==> (#[trigger] intervals[i])@.wf(),
    ensures
        forall|f: (Seq<char>, Seq<char>, Seq<char>)|
            #[trigger] sequence_findings(name, ivs(intervals)).contains(f) && f.2 == disorder_note() ==> exists|k: int|
                1 <= k < ivs(intervals).len() && f.1 == describe_text(#[trigger] ivs(intervals)[k]) && earlier_start(
                ivs(intervals)[k], ivs(intervals)[k - 1]),
{
    let all = ivs(intervals);
    assert forall|k: int| 0 <= k < all.len() implies (#[trigger] all[k]).wf() by {
        assert(all[k] == intervals[k]@);
    }
    law_sequence_order(name, all);
}

fn start_minute_exec(iv: &Interval) -> (r: i64)
    requires
        iv@.wf(),
    ensures
        r == start_minute(iv@),
        -4_000_000_000_000 <= r <= 4_000_000_000_000,
{
    (day_count(iv.date) as i64) * 1440 + iv.start.minutes()
}

/// Appends to `findings` what is wrong with consecutive entries of the file
/// `name`: one recorded after a later one, or one that starts before the
/// previous one ends. Entries that touch are fine.
pub fn check_sequence(name: &str, intervals: &Vec<Interval>, findings: &mut Vec<Finding>)
    requires
        forall|i: int| 0 <= i < intervals@.len() ==> (#[trigger] intervals@[i])@.wf(),
    ensures
        findings_view(final(findings)@) == findings_view(old(findings)@) + sequence_findings(
            name@,
            ivs(intervals@),
        ),
        forall|f: (Seq<char>, Seq<char>, Seq<char>)|
            #[trigger] sequence_findings(name@, ivs(intervals@)).contains(f) && f.2 == disorder_note() ==> exists|k: int|
                1 <= k < ivs(intervals@).len() && f.1 == describe_text(#[trigger] ivs(intervals@)[k])
                    && earlier_start(ivs(intervals@)[k], ivs(intervals@)[k - 1]),
{
    proof {
        lemma_sequence_order_read(name@, intervals@);
    }
    let ghost f0 = findings_view(findings@);
    let ghost all = ivs(intervals@);
    if intervals.len() < 2 {
        assert(sequence_findings(name@, all) =~= Seq::empty());
        assert(findings_view(findings@) =~= f0 + sequence_findings(name@, all));
        return;
    }
    let mut i: usize = 1;
    assert(all.take(1).len() < 2);
    assert(findings_view(findings@) =~= f0 + sequence_findings(name@, all.take(1)));
    while i < intervals.len()
        invariant
            1 <= i <= intervals.len(),
            all == ivs(intervals@),
            forall|k: int| 0 <= k < intervals@.len() ==> (#[trigger] intervals@[k])@.wf(),
            findings_view(findings@) == f0 + sequence_findings(name@, all.take(i as int)),
        decreases intervals.len() - i,
    {
        let prev = &intervals[i - 1];
        let cur = &intervals[i];
        let ghost t = all.take(i + 1);
        assert(t.drop_last() =~= all.take(i as int));
        assert(t[t.len() - 2] == prev@);
        assert(t.last() == cur@);
        let ghost before = findings_view(findings@);
        let prev_start = start_minute_exec(prev);
        let cur_start = start_minute_exec(cur);
        if cur_start < prev_start {
            let desc = describe(cur);
            push_finding(findings, name, &desc, owned("recorded after a later entry; the file is out of order"));
            assert(findings_view(findings@) =~= f0 + sequence_findings(name@, t));
        } else {
            let prev_end = prev_start + match prev.duration() {
                Some(d) => d,
                None => 0,
            };
            if cur_start < prev_end {
                let desc = describe(cur);
                let mut v: Vec<char> = Vec::new();
                append_str(&mut v, "overlaps the previous entry by ");
                let hm = duration_str(prev_end - cur_start);
                append_str(&mut v, hm.as_str());
                push_finding(findings, name, &desc, string_of(&v));
                assert(findings_view(findings@) =~= f0 + sequence_findings(name@, t));
            } else {
                assert(findings_view(findings@) =~= f0 + sequence_findings(name@, t));
            }
        }
        i += 1;
    }
    assert(all.take(intervals.len() as int) =~= all);
}

// ---------------------------------------------------------------------------
// All files
// ---------------------------------------------------------------------------

/// What reading the week files gave: each file's name with its entries, or
/// the error that stopped the reading.
pub open spec fn files_input(files: Seq<(String, Result<Vec<Interval>, String>)>) -> Seq<
    (Seq<char>, Result<Seq<IntervalV>, Seq<char>>),
> {
    files.map_values(
        |f: (String, Result<Vec<Interval>, String>)|
            (
                f.0@,
                match f.1 {
                    Ok(v) => Ok(ivs(v@)),
                    Err(e) => Err(e@),
                },
            ),
    )
}

/// The findings on the entries of one file, entry by entry.
pub open spec fn entries_findings(name: Seq<char>, v: Seq<IntervalV>, today: Date) -> Seq<
    (Seq<char>, Seq<char>, Seq<char>),
>
    decreases v.len(),
{
    if v.len() == 0 {
        Seq::empty()
    } else {
        entries_findings(name, v.drop_last(), today) + with_entry(
            name,
            v.last(),
            entry_notes(name, v.last(), today),
        )
    }
}

/// The findings on one file: an unreadable file is one finding; otherwise
/// each entry's, then those on consecutive entries.
pub open spec fn file_findings(
    name: Seq<char>,
    r: Result<Seq<IntervalV>, Seq<char>>,
    today: Date,
) -> Seq<(Seq<char>, Seq<char>, Seq<char>)> {
    match r {
        Err(e) => seq![(name, "unreadable"@, e)],
        Ok(v) => entries_findings(name, v, today) + sequence_findings(name, v),
    }
}

/// The findings on every file, file by file.
pub open spec fn files_findings(
    fs: Seq<(Seq<char>, Result<Seq<IntervalV>, Seq<char>>)>,
    today: Date,
) -> Seq<(Seq<char>, Seq<char>, Seq<char>)>
    decreases fs.len(),
{
    if fs.len() == 0 {
        Seq::empty()
    } else {
        files_findings(fs.drop_last(), today) + file_findings(fs.last().0, fs.last().1, today)
    }
}

/// The running entries of one file, with the file's name.
pub open spec fn open_in_file(name: Seq<char>, v: Seq<IntervalV>) -> Seq<(Seq<char>, IntervalV)>
    decreases v.len(),
{
    if v.len() == 0 {
        Seq::empty()
    } else {
        open_in_file(name, v.drop_last()) + if v.last().end is None {
            seq![(name, v.last())]
        } else {
            Seq::empty()
        }
    }
}

/// The running entries of all readable files.
pub open spec fn open_timers(fs: Seq<(Seq<char>, Result<Seq<IntervalV>, Seq<char>>)>) -> Seq<
    (Seq<char>, IntervalV),
>
    decreases fs.len(),
{
    if fs.len() == 0 {
        Seq::empty()
    } else {
        open_timers(fs.drop_last()) + match fs.last().1 {
            Ok(v) => open_in_file(fs.last().0, v),
            Err(_) => Seq::empty(),
        }
    }
}

/// The note on each of several running entries.
pub open spec fn many_open_note(n: nat) -> Seq<char> {
    "one of "@ + dec(n) + " open timers; only one may run"@
}

/// Every finding on the data: those of each file, then, when more than one
/// timer is running, one for each of them.
pub open spec fn doctor_spec(fs: Seq<(Seq<char>, Result<Seq<IntervalV>, Seq<char>>)>, today: Date) -> Seq<
    (Seq<char>, Seq<char>, Seq<char>),
> {
    let o = open_timers(fs);
    files_findings(fs, today) + if o.len() > 1 {
        o.map_values(|p: (Seq<char>, IntervalV)| (p.0, describe_text(p.1), many_open_note(o.len())))
    } else {
        Seq::empty()
    }
}

/// The number of entries in the readable files.
pub open spec fn entries_checked(fs: Seq<(Seq<char>, Result<Seq<IntervalV>, Seq<char>>)>) -> nat
    decreases fs.len(),
{
    if fs.len() == 0 {
        0
    } else {
        entries_checked(fs.drop_last()) + match fs.last().1 {
            Ok(v) => v.len(),
            Err(_) => 0,
        }
    }
}

proof fn lemma_checked_prefix(fs: Seq<(Seq<char>, Result<Seq<IntervalV>, Seq<char>>)>, i: int)
    requires
        0 <= i <= fs.len(),
    ensures
        entries_checked(fs.take(i)) <= entries_checked(fs),
    decreases fs.len() - i,
{
    if i < fs.len() {
        assert(fs.take(i + 1).drop_last() =~= fs.take(i));
        lemma_checked_prefix(fs, i + 1);
    } else {
        assert(fs.take(i) =~= fs);
    }
}

/// The contents of a list of running entries with their files.
pub open spec fn opens_view(v: Seq<(String, Interval)>) -> Seq<(Seq<char>, IntervalV)> {
    v.map_values(|p: (String, Interval)| (p.0@, p.1@))
}

/// All findings on the week files as read (`files`, in file order), checked
/// on `today`, and the number of entries checked.
pub fn doctor_findings(files: &Vec<(String, Result<Vec<Interval>, String>)>, today: Date) -> (r: (
    Vec<Finding>,
    usize,
))
    requires
        forall|i: int|
            0 <= i < files@.len() ==> ((#[trigger] files@[i]).1 matches Ok(v) ==> forall|k: int|
                0 <= k < v@.len() ==> (#[trigger] v@[k])@.wf()),
        entries_checked(files_input(files@)) <= usize::MAX,
    ensures
        findings_view(r.0@) == doctor_spec(files_input(files@), today),
        r.1 == entries_checked(files_input(files@)),
{
    let ghost fs = files_input(files@);
    let mut findings: Vec<Finding> = Vec::new();
    let mut opens: Vec<(String, Interval)> = Vec::new();
    let mut checked: usize = 0;
    let mut i: usize = 0;
    assert(findings_view(findings@) =~= files_findings(fs.take(0), today));
    assert(opens_view(opens@) =~= open_timers(fs.take(0)));
    while i < files.len()
        invariant
            i <= files.len(),
            fs == files_input(files@),
            forall|i: int|
                0 <= i < files@.len() ==> ((#[trigger] files@[i]).1 matches Ok(v) ==> forall|k: int|
                    0 <= k < v@.len() ==> (#[trigger] v@[k])@.wf()),
            entries_checked(fs) <= usize::MAX,
            findings_view(findings@) == files_findings(fs.take(i as int), today),
            opens_view(opens@) == open_timers(fs.take(i as int)),
            checked == entries_checked(fs.take(i as int)),
        decreases files.len() - i,
    {
        let name = &files[i].0;
        let ghost t = fs.take(i + 1);
        assert(t.drop_last() =~= fs.take(i as int));
        assert(t.last() == fs[i as int]);
        proof {
            lemma_checked_prefix(fs, i + 1);
        }
        match &files[i].1 {
            Err(e) => {
                push_finding(&mut findings, name.as_str(), &owned("unreadable"), e.clone());
                assert(findings_view(findings@) =~= files_findings(t, today));
                assert(opens_view(opens@) =~= open_timers(t));
            },
            Ok(v) => {
                let ghost vv = ivs(v@);
                let ghost f0 = findings_view(findings@);
                let ghost o0 = opens_view(opens@);
                assert(fs[i as int].1 == Ok::<Seq<IntervalV>, Seq<char>>(vv));
                checked = checked + v.len();
                let mut j: usize = 0;
                assert(findings_view(findings@) =~= f0 + entries_findings(name@, vv.take(0), today));
                assert(opens_view(opens@) =~= o0 + open_in_file(name@, vv.take(0)));
                while j < v.len()
                    invariant
                        j <= v.len(),
                        vv == ivs(v@),
                        forall|k: int| 0 <= k < v@.len() ==> (#[trigger] v@[k])@.wf(),
                        findings_view(findings@) == f0 + entries_findings(
                            name@,
                            vv.take(j as int),
                            today,
                        ),
                        opens_view(opens@) == o0 + open_in_file(name@, vv.take(j as int)),
                    decreases v.len() - j,
                {
                    let ghost tj = vv.take(j + 1);
                    assert(tj.drop_last() =~= vv.take(j as int));
                    assert(tj.last() == v@[j as int]@);
                    let ghost fa = findings_view(findings@);
                    check_entry(name.as_str(), &v[j], today, &mut findings);
                    assert(findings_view(findings@) =~= f0 + entries_findings(name@, tj, today));
                    let ghost oa = opens_view(opens@);
                    if v[j].is_open() {
                        opens.push((name.clone(), v[j].copy()));
                        assert(opens_view(opens@) =~= oa.push((name@, v@[j as int]@)));
                    }
                    assert(opens_view(opens@) =~= o0 + open_in_file(name@, tj));
                    j += 1;
                }
                assert(vv.take(v.len() as int) =~= vv);
                let ghost fb = findings_view(findings@);
                check_sequence(name.as_str(), v, &mut findings);
                assert(findings_view(findings@) =~= files_findings(t, today));
                assert(opens_view(opens@) =~= open_timers(t));
            },
        }
        i += 1;
    }
    assert(fs.take(files.len() as int) =~= fs);
    let ghost o = open_timers(fs);
    let ghost f1 = findings_view(findings@);
    if opens.len() > 1 {
        let n = opens.len();
        let mut k: usize = 0;
        while k < n
            invariant
                k <= n,
                n == opens@.len(),
                opens_view(opens@) == o,
                findings_view(findings@) == f1 + o.take(k as int).map_values(
                    |p: (Seq<char>, IntervalV)| (p.0, describe_text(p.1), many_open_note(o.len())),
                ),
            decreases n - k,
        {
            let desc = describe(&opens[k].1);
            let mut msg: Vec<char> = Vec::new();
            append_str(&mut msg, "one of ");
            let d = dec_chars(n as u64);
            append_chars(&mut msg, &d);
            append_str(&mut msg, " open timers; only one may run");
            let ghost before = findings_view(findings@);
            push_finding(&mut findings, opens[k].0.as_str(), &desc, string_of(&msg));
            assert(o.take(k + 1) =~= o.take(k as int).push(o[k as int]));
            assert(findings_view(findings@) =~= f1 + o.take(k + 1).map_values(
                |p: (Seq<char>, IntervalV)| (p.0, describe_text(p.1), many_open_note(o.len())),
            ));
            k += 1;
        }
        assert(o.take(n as int) =~= o);
    } else {
        assert(findings_view(findings@) =~= doctor_spec(fs, today));
    }
    (findings, checked)
}

// ---------------------------------------------------------------------------
// The report
// ---------------------------------------------------------------------------

/// `s` padded with spaces on the right to `w` characters (`{:<w}`).
pub open spec fn pad_right(s: Seq<char>, w: nat) -> Seq<char> {
    if s.len() >= w {
        s
    } else {
        s + Seq::new((w - s.len()) as nat, |i: int| ' ')
    }
}

/// `s` padded with spaces on the right to `w` characters.
pub fn pad_right_chars(s: &[char], w: usize) -> (r: Vec<char>)
    ensures
        r@ == pad_right(s@, w as nat),
{
    let mut r: Vec<char> = Vec::new();
    append_chars(&mut r, s);
    let mut n: usize = s.len();
    while n < w
        invariant
            s.len() <= n <= w || (n == s.len() && s.len() >= w),
            n < w ==> r@ == s@ + Seq::new((n - s.len()) as nat, |i: int| ' '),
            n >= w && s.len() < w ==> r@ == s@ + Seq::new((w - s.len()) as nat, |i: int| ' '),
            s.len() >= w ==> r@ == s@,
            n >= s.len(),
        decreases w - n,
    {
        let ghost r0 = r@;
        r.push(' ');
        assert(r@ =~= s@ + Seq::new((n + 1 - s.len()) as nat, |i: int| ' '));
        n += 1;
    }
    if s.len() < w {
        assert(n == w);
    }
    r
}

/// The file heading printed before a finding: the file's name when it
/// differs from that of the finding before, after a blank line unless it is
/// the first.
pub open spec fn heading(current: Seq<char>, file: Seq<char>) -> Seq<char> {
    if file != current {
        (if current.len() > 0 {
            seq!['\n']
        } else {
            Seq::empty()
        }) + file + seq!['\n']
    } else {
        Seq::empty()
    }
}

/// The line printed for a finding.
pub open spec fn finding_line(f: (Seq<char>, Seq<char>, Seq<char>)) -> Seq<char> {
    seq![' ', ' '] + pad_right(f.1, 34) + seq![' '] + f.2 + seq!['\n']
}

/// The file of the last finding, or nothing.
pub open spec fn last_file(fs: Seq<(Seq<char>, Seq<char>, Seq<char>)>) -> Seq<char> {
    if fs.len() == 0 {
        Seq::empty()
    } else {
        fs.last().0
    }
}

/// The findings grouped under their files, in order.
pub open spec fn listing(fs: Seq<(Seq<char>, Seq<char>, Seq<char>)>) -> Seq<char>
    decreases fs.len(),
{
    if fs.len() == 0 {
        Seq::empty()
    } else {
        listing(fs.drop_last()) + heading(last_file(fs.drop_last()), fs.last().0) + finding_line(
            fs.last(),
        )
    }
}

/// The text the check prints, and its outcome: with no findings a one-line
/// summary; otherwise the listing and an error that counts the issues.
pub open spec fn report_spec(fs: Seq<(Seq<char>, Seq<char>, Seq<char>)>, checked: nat, files: nat) -> (
    Seq<char>,
    Result<(), Seq<char>>,
) {
    if fs.len() == 0 {
        (
            dec(checked) + " entries in "@ + dec(files) + " files, nothing to report."@ + seq!['\n'],
            Ok(()),
        )
    } else {
        (
            listing(fs) + seq!['\n'],
            Err(
                dec(fs.len()) + " issue(s) across "@ + dec(checked) + " entries in "@ + dec(files)
                    + " files"@,
            ),
        )
    }
}

/// The text that reports `findings` after checking `checked` entries in
/// `files` files, and the outcome of the check.
pub fn doctor_report(findings: &Vec<Finding>, checked: usize, files: usize) -> (r: (
    String,
    Result<(), String>,
))
    ensures
        r.0@ == report_spec(findings_view(findings@), checked as nat, files as nat).0,
        match report_spec(findings_view(findings@), checked as nat, files as nat).1 {
            Ok(_) => r.1 is Ok,
            Err(m) => r.1 matches Err(e) && e@ == m,
        },
{
    let ghost fs = findings_view(findings@);
    if findings.len() == 0 {
        let mut v = dec_chars(checked as u64);
        append_str(&mut v, " entries in ");
        let d = dec_chars(files as u64);
        append_chars(&mut v, &d);
        append_str(&mut v, " files, nothing to report.");
        v.push('\n');
        return (string_of(&v), Ok(()));
    }
    let mut out: Vec<char> = Vec::new();
    let mut current: Vec<char> = Vec::new();
    let mut i: usize = 0;
    assert(fs.take(0) =~= Seq::<(Seq<char>, Seq<char>, Seq<char>)>::empty());
    while i < findings.len()
        invariant
            i <= findings.len(),
            fs == findings_view(findings@),
            out@ == listing(fs.take(i as int)),
            current@ == last_file(fs.take(i as int)),
        decreases findings.len() - i,
    {
        let f = &findings[i];
        let ghost t = fs.take(i + 1);
        assert(t.drop_last() =~= fs.take(i as int));
        assert(t.last() == f@);
        let file = chars_of(f.file.as_str());
        if !chars_eq(&file, &current) {
            if current.len() > 0 {
                out.push('\n');
            }
            append_chars(&mut out, &file);
            out.push('\n');
            current = file;
        }
        out.push(' ');
        out.push(' ');
        let e = chars_of(f.entry.as_str());
        let p = pad_right_chars(&e, 34);
        append_chars(&mut out, &p);
        out.push(' ');
        append_str(&mut out, f.note.as_str());
        out.push('\n');
        assert(out@ =~= listing(t));
        assert(current@ =~= last_file(t));
        i += 1;
    }
    assert(fs.take(findings.len() as int) =~= fs);
    out.push('\n');
    let mut m = dec_chars(findings.len() as u64);
    append_str(&mut m, " issue(s) across ");
    let c = dec_chars(checked as u64);
    append_chars(&mut m, &c);
    append_str(&mut m, " entries in ");
    let d = dec_chars(files as u64);
    append_chars(&mut m, &d);
    append_str(&mut m, " files");
    (string_of(&out), Err(string_of(&m)))
}

} // verus!
