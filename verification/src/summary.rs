//! Time per project over a period, for the summary: minutes and the energy
//! levels recorded, one row per project in name order.
use vstd::prelude::*;

use crate::calendar::{Date, Time};
use crate::config::Config;
use crate::datafile::ivs;
use crate::interval::{report_minutes, strs, Interval, IntervalV};
use crate::order::{lemma_lt_connected, lemma_lt_irreflexive, lemma_lt_transitive};
use crate::interval::msg3;
use crate::text::{chars_eq, chars_lt, chars_of, seq_lt};

verus! {

/// The minutes, and the energy levels, of one project.
#[derive(Debug)]
pub struct ProjectTotal {
    pub project: String,
    pub minutes: i64,
    pub energies: Vec<u8>,
}

impl View for ProjectTotal {
    type V = (Seq<char>, int, Seq<u8>);

    open spec fn view(&self) -> (Seq<char>, int, Seq<u8>) {
        (self.project@, self.minutes as int, self.energies@)
    }
}

/// The contents of a list of rows.
pub open spec fn rows_view(v: Seq<ProjectTotal>) -> Seq<(Seq<char>, int, Seq<u8>)> {
    v.map_values(|r: ProjectTotal| r@)
}

/// The minutes an entry counts in a summary made on `today` at `now`: its
/// length, or, while running today, the time from its start to `now`. A timer
/// left running from an earlier day is stale and counts nothing.
pub open spec fn entry_minutes(iv: IntervalV, today: Date, now: Time) -> int {
    match report_minutes(iv, today, now) {
        Some(m) => m as int,
        None => 0,
    }
}

/// Whether a project passes the group filter.
pub open spec fn in_filter(filter: Option<Seq<Seq<char>>>, p: Seq<char>) -> bool {
    match filter {
        Some(f) => f.contains(p),
        None => true,
    }
}

/// The entries whose projects pass the filter, in order.
pub open spec fn selected(s: Seq<IntervalV>, filter: Option<Seq<Seq<char>>>) -> Seq<IntervalV>
    decreases s.len(),
{
    if s.len() == 0 {
        Seq::empty()
    } else {
        selected(s.drop_last(), filter) + if in_filter(filter, s.last().project) {
            seq![s.last()]
        } else {
            Seq::empty()
        }
    }
}

/// The minutes of project `p` over the entries `s`.
pub open spec fn project_minutes(s: Seq<IntervalV>, p: Seq<char>, today: Date, now: Time) -> int
    decreases s.len(),
{
    if s.len() == 0 {
        0
    } else {
        project_minutes(s.drop_last(), p, today, now) + if s.last().project == p {
            entry_minutes(s.last(), today, now)
        } else {
            0
        }
    }
}

/// The energy levels recorded on the entries of project `p`, in order.
pub open spec fn project_energies(s: Seq<IntervalV>, p: Seq<char>) -> Seq<u8>
    decreases s.len(),
{
    if s.len() == 0 {
        Seq::empty()
    } else {
        project_energies(s.drop_last(), p) + match s.last().energy {
            Some(e) => if s.last().project == p {
                seq![e]
            } else {
                Seq::empty()
            },
            None => Seq::empty(),
        }
    }
}

/// Some entry of `s` is of project `p`.
pub open spec fn has_project(s: Seq<IntervalV>, p: Seq<char>) -> bool {
    exists|j: int| 0 <= j < s.len() && (#[trigger] s[j]).project == p
}

/// `rows` is the summary of `s`: one row for each project of its entries, in
/// name order, with that project's minutes and energy levels.
pub open spec fn summarized(rows: Seq<(Seq<char>, int, Seq<u8>)>, s: Seq<IntervalV>, today: Date, now: Time) -> bool {
    &&& forall|a: int, b: int| 0 <= a < b < rows.len() ==> seq_lt((#[trigger] rows[a]).0, (#[trigger] rows[b]).0)
    &&& forall|a: int| 0 <= a < rows.len() ==> has_project(s, (#[trigger] rows[a]).0)
    &&& forall|j: int| 0 <= j < s.len() ==> exists|a: int| 0 <= a < rows.len() && (#[trigger] rows[a]).0 == (#[trigger] s[j]).project
    &&& forall|a: int|
        0 <= a < rows.len() ==> (#[trigger] rows[a]).1 == project_minutes(s, rows[a].0, today, now) && rows[a].2
            == project_energies(s, rows[a].0)
}

proof fn lemma_push(t0: Seq<IntervalV>, iv: IntervalV, p: Seq<char>, today: Date, now: Time)
    ensures
        project_minutes(t0.push(iv), p, today, now) == project_minutes(t0, p, today, now) + if iv.project == p {
            entry_minutes(iv, today, now)
        } else {
            0
        },
        project_energies(t0.push(iv), p) == project_energies(t0, p) + match iv.energy {
            Some(e) => if iv.project == p {
                seq![e]
            } else {
                Seq::empty()
            },
            None => Seq::empty(),
        },
        has_project(t0, p) ==> has_project(t0.push(iv), p),
{
    let t1 = t0.push(iv);
    assert(t1.drop_last() =~= t0);
    if has_project(t0, p) {
        let j = choose|j: int| 0 <= j < t0.len() && (#[trigger] t0[j]).project == p;
        assert(t1[j] == t0[j]);
    }
}

proof fn lemma_absent(s: Seq<IntervalV>, p: Seq<char>, today: Date, now: Time)
    requires
        !has_project(s, p),
    ensures
        project_minutes(s, p, today, now) == 0,
        project_energies(s, p) == Seq::<u8>::empty(),
    decreases s.len(),
{
    if s.len() > 0 {
        assert(!has_project(s.drop_last(), p)) by {
            if has_project(s.drop_last(), p) {
                let j = choose|j: int| 0 <= j < s.drop_last().len() && (#[trigger] s.drop_last()[j]).project == p;
                assert(s[j] == s.drop_last()[j]);
            }
        }
        lemma_absent(s.drop_last(), p, today, now);
        assert(s.last() == s[s.len() - 1]);
    }
}

proof fn lemma_bounds(s: Seq<IntervalV>, p: Seq<char>, today: Date, now: Time)
    requires
        forall|j: int| 0 <= j < s.len() ==> (#[trigger] s[j]).wf(),
        now.wf(),
    ensures
        0 <= project_minutes(s, p, today, now) <= 1440 * s.len(),
    decreases s.len(),
{
    if s.len() > 0 {
        assert(s.last() == s[s.len() - 1]);
        lemma_bounds(s.drop_last(), p, today, now);
    }
}

proof fn lemma_step_update(rows: Seq<(Seq<char>, int, Seq<u8>)>, a: int, t0: Seq<IntervalV>, iv: IntervalV, today: Date, now: Time)
    requires
        summarized(rows, t0, today, now),
        0 <= a < rows.len(),
        rows[a].0 == iv.project,
    ensures
        summarized(
            rows.update(
                a,
                (iv.project, project_minutes(t0.push(iv), iv.project, today, now), project_energies(t0.push(iv), iv.project)),
            ),
            t0.push(iv),
            today,
            now,
        ),
{
    let t1 = t0.push(iv);
    let r1 = rows.update(a, (iv.project, project_minutes(t1, iv.project, today, now), project_energies(t1, iv.project)));
    assert forall|b: int| 0 <= b < r1.len() implies has_project(t1, (#[trigger] r1[b]).0) by {
        lemma_push(t0, iv, r1[b].0, today, now);
        assert(r1[b].0 == rows[b].0);
    }
    assert forall|j: int| 0 <= j < t1.len() implies exists|b: int| 0 <= b < r1.len() && (#[trigger] r1[b]).0 == (#[trigger] t1[j]).project by {
        if j < t0.len() {
            assert(t1[j] == t0[j]);
            let b = choose|b: int| 0 <= b < rows.len() && (#[trigger] rows[b]).0 == (#[trigger] t0[j]).project;
            assert(r1[b].0 == rows[b].0);
        } else {
            assert(r1[a].0 == t1[j].project);
        }
    }
    assert forall|b: int| 0 <= b < r1.len() implies (#[trigger] r1[b]).1 == project_minutes(t1, r1[b].0, today, now) && r1[b].2
        == project_energies(t1, r1[b].0) by {
        lemma_push(t0, iv, r1[b].0, today, now);
        if b != a {
            assert(rows[b].0 != iv.project) by {
                if rows[b].0 == iv.project {
                    if b < a {
                        assert(seq_lt(rows[b].0, rows[a].0));
                    } else {
                        assert(seq_lt(rows[a].0, rows[b].0));
                    }
                    lemma_lt_irreflexive(iv.project);
                }
            }
        }
    }
    assert forall|x: int, y: int| 0 <= x < y < r1.len() implies seq_lt((#[trigger] r1[x]).0, (#[trigger] r1[y]).0) by {
        assert(r1[x].0 == rows[x].0);
        assert(r1[y].0 == rows[y].0);
    }
}

proof fn lemma_step_insert(rows: Seq<(Seq<char>, int, Seq<u8>)>, p: int, t0: Seq<IntervalV>, iv: IntervalV, today: Date, now: Time)
    requires
        summarized(rows, t0, today, now),
        0 <= p <= rows.len(),
        forall|a: int| 0 <= a < p ==> seq_lt((#[trigger] rows[a]).0, iv.project),
        p < rows.len() ==> seq_lt(iv.project, rows[p].0),
    ensures
        !has_project(t0, iv.project),
        summarized(
            rows.insert(
                p,
                (iv.project, project_minutes(t0.push(iv), iv.project, today, now), project_energies(t0.push(iv), iv.project)),
            ),
            t0.push(iv),
            today,
            now,
        ),
{
    let t1 = t0.push(iv);
    let k = iv.project;
    let r1 = rows.insert(p, (k, project_minutes(t1, k, today, now), project_energies(t1, k)));
    assert(!has_project(t0, k)) by {
        if has_project(t0, k) {
            let j = choose|j: int| 0 <= j < t0.len() && (#[trigger] t0[j]).project == k;
            let a = choose|a: int| 0 <= a < rows.len() && (#[trigger] rows[a]).0 == (#[trigger] t0[j]).project;
            lemma_lt_irreflexive(k);
            if a > p {
                lemma_lt_transitive(k, rows[p].0, rows[a].0);
            }
        }
    }
    assert forall|b: int| 0 <= b < r1.len() implies has_project(t1, (#[trigger] r1[b]).0) by {
        if b == p {
            assert(t1[t0.len() as int] == iv);
        } else if b < p {
            assert(r1[b] == rows[b]);
            lemma_push(t0, iv, rows[b].0, today, now);
        } else {
            assert(r1[b] == rows[b - 1]);
            lemma_push(t0, iv, rows[b - 1].0, today, now);
        }
    }
    assert forall|j: int| 0 <= j < t1.len() implies exists|b: int| 0 <= b < r1.len() && (#[trigger] r1[b]).0 == (#[trigger] t1[j]).project by {
        if j < t0.len() {
            assert(t1[j] == t0[j]);
            let a = choose|a: int| 0 <= a < rows.len() && (#[trigger] rows[a]).0 == (#[trigger] t0[j]).project;
            if a < p {
                assert(r1[a] == rows[a]);
            } else {
                assert(r1[a + 1] == rows[a]);
            }
        } else {
            assert(r1[p].0 == t1[j].project);
        }
    }
    assert forall|b: int| 0 <= b < r1.len() implies (#[trigger] r1[b]).1 == project_minutes(t1, r1[b].0, today, now) && r1[b].2
        == project_energies(t1, r1[b].0) by {
        if b != p {
            let b0 = if b < p {
                b
            } else {
                b - 1
            };
            assert(r1[b] == rows[b0]);
            lemma_push(t0, iv, rows[b0].0, today, now);
            assert(rows[b0].0 != k) by {
                if rows[b0].0 == k {
                    lemma_lt_irreflexive(k);
                    if b0 > p {
                        lemma_lt_transitive(k, rows[p].0, rows[b0].0);
                    }
                }
            }
        }
    }
    assert forall|x: int, y: int| 0 <= x < y < r1.len() implies seq_lt((#[trigger] r1[x]).0, (#[trigger] r1[y]).0) by {
        if y < p {
            assert(r1[x] == rows[x]);
            assert(r1[y] == rows[y]);
        } else if y == p {
            assert(r1[x] == rows[x]);
        } else if x < p {
            assert(r1[x] == rows[x]);
            assert(r1[y] == rows[y - 1]);
            if y - 1 > p {
                lemma_lt_transitive(k, rows[p].0, rows[y - 1].0);
            }
            lemma_lt_transitive(rows[x].0, k, rows[y - 1].0);
        } else if x == p {
            assert(r1[y] == rows[y - 1]);
            if y - 1 > p {
                lemma_lt_transitive(k, rows[p].0, rows[y - 1].0);
            }
        } else {
            assert(r1[x] == rows[x - 1]);
            assert(r1[y] == rows[y - 1]);
        }
    }
}

/// Whether `s` is one of `set`.
fn listed(set: &Vec<String>, s: &str) -> (r: bool)
    ensures
        r == strs(set@).contains(s@),
{
    let c = chars_of(s);
    let mut i: usize = 0;
    while i < set.len()
        invariant
            i <= set.len(),
            c@ == s@,
            forall|j: int| 0 <= j < i ==> (#[trigger] set@[j])@ != s@,
        decreases set.len() - i,
    {
        let e = chars_of(set[i].as_str());
        if chars_eq(&e, &c) {
            assert(strs(set@)[i as int] == s@);
            return true;
        }
        i += 1;
    }
    assert forall|j: int| 0 <= j < strs(set@).len() implies strs(set@)[j] != s@ by {
        assert(strs(set@)[j] == set@[j]@);
    }
    false
}

/// The first row whose project does not sort before `p`.
fn row_position(rows: &Vec<ProjectTotal>, p: &[char]) -> (r: usize)
    ensures
        r <= rows@.len(),
        forall|a: int| 0 <= a < r ==> seq_lt((#[trigger] rows@[a])@.0, p@),
        r < rows@.len() ==> !seq_lt(rows@[r as int]@.0, p@),
{
    let mut i: usize = 0;
    while i < rows.len()
        invariant
            i <= rows@.len(),
            forall|a: int| 0 <= a < i ==> seq_lt((#[trigger] rows@[a])@.0, p@),
        decreases rows.len() - i,
    {
        let name = chars_of(rows[i].project.as_str());
        if !chars_lt(&name, p) {
            return i;
        }
        i += 1;
    }
    i
}

/// The project totals of the entries whose projects are in `filter` (all
/// entries when there is none), one row per project in name order; a timer
/// running today counts up to `now`, one left running from an earlier day
/// counts nothing.
pub fn summarize(intervals: &Vec<Interval>, filter: Option<&Vec<String>>, today: Date, now: Time) -> (r: Vec<ProjectTotal>)
    requires
        forall|i: int| 0 <= i < intervals@.len() ==> (#[trigger] intervals@[i])@.wf(),
        now.wf(),
        intervals@.len() * 1440 <= i64::MAX,
    ensures
        summarized(
            rows_view(r@),
            selected(
                ivs(intervals@),
                match filter {
                    Some(f) => Some(strs(f@)),
                    None => None,
                },
            ),
            today,
            now,
        ),
{
    let ghost s = ivs(intervals@);
    let ghost f = match filter {
        Some(f) => Some(strs(f@)),
        None => None,
    };
    let mut rows: Vec<ProjectTotal> = Vec::new();
    let mut i: usize = 0;
    assert(s.take(0) =~= Seq::<IntervalV>::empty());
    assert(selected(s.take(0), f) =~= Seq::<IntervalV>::empty());
    assert(rows_view(rows@) =~= Seq::<(Seq<char>, int, Seq<u8>)>::empty());
    while i < intervals.len()
        invariant
            i <= intervals.len(),
            s == ivs(intervals@),
            f == match filter {
                Some(f) => Some(strs(f@)),
                None => None::<Seq<Seq<char>>>,
            },
            forall|j: int| 0 <= j < intervals@.len() ==> (#[trigger] intervals@[j])@.wf(),
            now.wf(),
            intervals@.len() * 1440 <= i64::MAX,
            summarized(rows_view(rows@), selected(s.take(i as int), f), today, now),
            selected(s.take(i as int), f).len() <= i,
            forall|j: int| 0 <= j < selected(s.take(i as int), f).len() ==> (#[trigger] selected(s.take(i as int), f)[j]).wf(),
        decreases intervals.len() - i,
    {
        let iv = &intervals[i];
        let ghost t0 = selected(s.take(i as int), f);
        assert(s.take(i + 1).drop_last() =~= s.take(i as int));
        assert(s.take(i + 1).last() == iv@);
        let keep = match filter {
            Some(set) => listed(set, iv.project.as_str()),
            None => true,
        };
        if !keep {
            assert(selected(s.take(i + 1), f) =~= t0);
            i += 1;
            continue;
        }
        assert(selected(s.take(i + 1), f) =~= t0.push(iv@));
        let ghost t1 = t0.push(iv@);
        let m: i64 = match iv.report_duration(today, now) {
            Some(d) => d,
            None => 0,
        };
        assert(m == entry_minutes(iv@, today, now));
        let name = chars_of(iv.project.as_str());
        let p = row_position(&rows, &name);
        let ghost r0 = rows_view(rows@);
        proof {
            lemma_push(t0, iv@, iv@.project, today, now);
            lemma_bounds(t0, iv@.project, today, now);
        }
        if p < rows.len() && chars_eq(&chars_of(rows[p].project.as_str()), &name) {
            assert(r0[p as int].0 == iv@.project);
            assert(r0[p as int].1 == project_minutes(t0, iv@.project, today, now));
            assert(r0[p as int].2 == project_energies(t0, iv@.project));
            assert(t0.len() + 1 <= intervals@.len());
            let mut e = rows[p].energies.clone();
            assert(e@ =~= rows@[p as int].energies@);
            match iv.energy {
                Some(x) => e.push(x),
                None => {},
            }
            let row = ProjectTotal { project: iv.project.clone(), minutes: rows[p].minutes + m, energies: e };
            assert(row@.0 == iv@.project);
            assert(row@.1 == project_minutes(t1, iv@.project, today, now));
            assert(row@.2 =~= project_energies(t1, iv@.project));
            rows.set(p, row);
            proof {
                lemma_step_update(r0, p as int, t0, iv@, today, now);
            }
            assert(rows_view(rows@) =~= r0.update(
                p as int,
                (iv@.project, project_minutes(t1, iv@.project, today, now), project_energies(t1, iv@.project)),
            ));
        } else {
            if p < rows.len() {
                proof {
                    lemma_lt_connected(rows@[p as int]@.0, iv@.project);
                }
            }
            proof {
                lemma_step_insert(r0, p as int, t0, iv@, today, now);
                lemma_absent(t0, iv@.project, today, now);
            }
            let mut e: Vec<u8> = Vec::new();
            match iv.energy {
                Some(x) => e.push(x),
                None => {},
            }
            let row = ProjectTotal { project: iv.project.clone(), minutes: m, energies: e };
            rows.insert(p, row);
            assert(rows_view(rows@) =~= r0.insert(
                p as int,
                (iv@.project, project_minutes(t1, iv@.project, today, now), project_energies(t1, iv@.project)),
            ));
        }
        assert forall|j: int| 0 <= j < t1.len() implies (#[trigger] t1[j]).wf() by {
            if j == t0.len() {
                assert(t1[j] == iv@);
            } else {
                assert(t1[j] == t0[j]);
            }
        }
        i += 1;
    }
    assert(s.take(intervals.len() as int) =~= s);
    rows
}

/// The minutes of all the entries `s` together.
pub open spec fn entries_total(s: Seq<IntervalV>, today: Date, now: Time) -> int
    decreases s.len(),
{
    if s.len() == 0 {
        0
    } else {
        entries_total(s.drop_last(), today, now) + entry_minutes(s.last(), today, now)
    }
}

/// The minutes of the rows together.
pub open spec fn minutes_sum(rows: Seq<(Seq<char>, int, Seq<u8>)>) -> int
    decreases rows.len(),
{
    if rows.len() == 0 {
        0
    } else {
        minutes_sum(rows.drop_last()) + rows.last().1
    }
}

/// The largest minutes of the rows, or 0 when there are none.
pub open spec fn minutes_max(rows: Seq<(Seq<char>, int, Seq<u8>)>) -> int
    decreases rows.len(),
{
    if rows.len() == 0 {
        0
    } else if rows.len() == 1 {
        rows[0].1
    } else {
        let m = minutes_max(rows.drop_last());
        if rows.last().1 > m {
            rows.last().1
        } else {
            m
        }
    }
}

/// Some row has an energy level recorded.
pub open spec fn any_energy(rows: Seq<(Seq<char>, int, Seq<u8>)>) -> bool {
    exists|a: int| 0 <= a < rows.len() && (#[trigger] rows[a]).2.len() > 0
}

/// The minutes of the projects `ps` over the entries `s`, together.
pub open spec fn names_sum(ps: Seq<Seq<char>>, s: Seq<IntervalV>, today: Date, now: Time) -> int
    decreases ps.len(),
{
    if ps.len() == 0 {
        0
    } else {
        names_sum(ps.drop_last(), s, today, now) + project_minutes(s, ps.last(), today, now)
    }
}

/// No name occurs twice.
pub open spec fn distinct(ps: Seq<Seq<char>>) -> bool {
    forall|i: int, j: int| 0 <= i < j < ps.len() ==> ps[i] != ps[j]
}

proof fn lemma_names_sum_push(ps: Seq<Seq<char>>, s: Seq<IntervalV>, iv: IntervalV, today: Date, now: Time)
    requires
        distinct(ps),
    ensures
        names_sum(ps, s.push(iv), today, now) == names_sum(ps, s, today, now) + if ps.contains(iv.project) {
            entry_minutes(iv, today, now)
        } else {
            0
        },
    decreases ps.len(),
{
    if ps.len() > 0 {
        let dl = ps.drop_last();
        assert(distinct(dl)) by {
            assert forall|i: int, j: int| 0 <= i < j < dl.len() implies dl[i] != dl[j] by {
                assert(dl[i] == ps[i] && dl[j] == ps[j]);
            }
        }
        lemma_names_sum_push(dl, s, iv, today, now);
        lemma_push(s, iv, ps.last(), today, now);
        if ps.contains(iv.project) {
            let k = choose|k: int| 0 <= k < ps.len() && ps[k] == iv.project;
            if k < ps.len() - 1 {
                assert(dl[k] == iv.project);
                assert(ps.last() != iv.project) by {
                    assert(ps[k] != ps[ps.len() - 1]);
                }
            } else {
                assert(!dl.contains(iv.project)) by {
                    if dl.contains(iv.project) {
                        let i = choose|i: int| 0 <= i < dl.len() && dl[i] == iv.project;
                        assert(ps[i] != ps[k]);
                    }
                }
            }
        } else {
            assert(!dl.contains(iv.project)) by {
                if dl.contains(iv.project) {
                    let i = choose|i: int| 0 <= i < dl.len() && dl[i] == iv.project;
                    assert(ps[i] == iv.project);
                }
            }
            assert(ps.last() != iv.project) by {
                assert(ps[ps.len() - 1] == ps.last());
            }
        }
    }
}

proof fn lemma_names_sum_total(ps: Seq<Seq<char>>, s: Seq<IntervalV>, today: Date, now: Time)
    requires
        distinct(ps),
        forall|j: int| 0 <= j < s.len() ==> ps.contains((#[trigger] s[j]).project),
    ensures
        names_sum(ps, s, today, now) == entries_total(s, today, now),
    decreases s.len(),
{
    if s.len() == 0 {
        lemma_names_sum_empty(ps, s, today, now);
    } else {
        let dl = s.drop_last();
        assert forall|j: int| 0 <= j < dl.len() implies ps.contains((#[trigger] dl[j]).project) by {
            assert(dl[j] == s[j]);
        }
        lemma_names_sum_total(ps, dl, today, now);
        assert(dl.push(s.last()) =~= s);
        assert(ps.contains(s[s.len() - 1].project));
        lemma_names_sum_push(ps, dl, s.last(), today, now);
    }
}

proof fn lemma_names_sum_empty(ps: Seq<Seq<char>>, s: Seq<IntervalV>, today: Date, now: Time)
    requires
        s.len() == 0,
    ensures
        names_sum(ps, s, today, now) == 0,
    decreases ps.len(),
{
    if ps.len() > 0 {
        lemma_names_sum_empty(ps.drop_last(), s, today, now);
    }
}

proof fn lemma_rows_names_sum(rows: Seq<(Seq<char>, int, Seq<u8>)>, s: Seq<IntervalV>, today: Date, now: Time)
    requires
        forall|a: int| 0 <= a < rows.len() ==> (#[trigger] rows[a]).1 == project_minutes(s, rows[a].0, today, now),
    ensures
        minutes_sum(rows) == names_sum(rows.map_values(|r: (Seq<char>, int, Seq<u8>)| r.0), s, today, now),
    decreases rows.len(),
{
    if rows.len() > 0 {
        let dl = rows.drop_last();
        assert forall|a: int| 0 <= a < dl.len() implies (#[trigger] dl[a]).1 == project_minutes(s, dl[a].0, today, now) by {
            assert(dl[a] == rows[a]);
        }
        lemma_rows_names_sum(dl, s, today, now);
        let ps = rows.map_values(|r: (Seq<char>, int, Seq<u8>)| r.0);
        assert(ps.drop_last() =~= dl.map_values(|r: (Seq<char>, int, Seq<u8>)| r.0));
        assert(rows.last() == rows[rows.len() - 1]);
    }
}

/// The minutes of a summary's rows add up to the minutes of the entries it
/// summarizes, each counted as the summary counts it: a timer running today
/// up to `now`, a timer left running from an earlier day not at all.
pub proof fn law_summary_total(rows: Seq<(Seq<char>, int, Seq<u8>)>, s: Seq<IntervalV>, today: Date, now: Time)
    requires
        summarized(rows, s, today, now),
    ensures
        minutes_sum(rows) == entries_total(s, today, now),
{
    let ps = rows.map_values(|r: (Seq<char>, int, Seq<u8>)| r.0);
    lemma_rows_names_sum(rows, s, today, now);
    assert(distinct(ps)) by {
        assert forall|i: int, j: int| 0 <= i < j < ps.len() implies ps[i] != ps[j] by {
            assert(seq_lt(rows[i].0, rows[j].0));
            lemma_lt_irreflexive(rows[i].0);
        }
    }
    assert forall|j: int| 0 <= j < s.len() implies ps.contains((#[trigger] s[j]).project) by {
        let a = choose|a: int| 0 <= a < rows.len() && (#[trigger] rows[a]).0 == s[j].project;
        assert(ps[a] == s[j].project);
    }
    lemma_names_sum_total(ps, s, today, now);
}

/// The figures under a summary's rows: the total minutes (nothing when it
/// does not fit in `i64`), the largest minutes of a row (0 without rows),
/// and whether some row has an energy level.
pub fn summary_totals(rows: &Vec<ProjectTotal>) -> (r: (Option<i64>, i64, bool))
    ensures
        r.0 == (if i64::MIN <= minutes_sum(rows_view(rows@)) <= i64::MAX {
            Some(minutes_sum(rows_view(rows@)) as i64)
        } else {
            None
        }),
        r.1 == minutes_max(rows_view(rows@)),
        r.2 == any_energy(rows_view(rows@)),
{
    let ghost rv = rows_view(rows@);
    let mut total: i128 = 0;
    let mut max: i64 = 0;
    let mut energy = false;
    let mut i: usize = 0;
    assert(rv.take(0) =~= Seq::<(Seq<char>, int, Seq<u8>)>::empty());
    while i < rows.len()
        invariant
            i <= rows.len(),
            rv == rows_view(rows@),
            total == minutes_sum(rv.take(i as int)),
            -0x8000_0000_0000_0000 * i <= total <= 0x7FFF_FFFF_FFFF_FFFF * i,
            max == minutes_max(rv.take(i as int)),
            energy == any_energy(rv.take(i as int)),
            i <= usize::MAX,
        decreases rows.len() - i,
    {
        let ghost t1 = rv.take(i + 1);
        assert(t1.drop_last() =~= rv.take(i as int));
        assert(t1.last() == rv[i as int]);
        assert(rv[i as int] == rows@[i as int]@);
        let m = rows[i].minutes;
        assert(0x7FFF_FFFF_FFFF_FFFF * (i + 1) <= 0x7FFF_FFFF_FFFF_FFFF * 0x1_0000_0000_0000_0000) by (nonlinear_arith)
            requires
                i + 1 <= 0x1_0000_0000_0000_0000,
        ;
        assert(0x8000_0000_0000_0000 * (i + 1) <= 0x8000_0000_0000_0000 * 0x1_0000_0000_0000_0000) by (nonlinear_arith)
            requires
                i + 1 <= 0x1_0000_0000_0000_0000,
        ;
        total = total + m as i128;
        if i == 0 || m > max {
            max = m;
        }
        if rows[i].energies.len() > 0 {
            energy = true;
        }
        assert(energy == any_energy(t1)) by {
            if any_energy(rv.take(i as int)) {
                let a = choose|a: int| 0 <= a < i && (#[trigger] rv.take(i as int)[a]).2.len() > 0;
                assert(t1[a] == rv.take(i as int)[a]);
            }
            if any_energy(t1) {
                let a = choose|a: int| 0 <= a < t1.len() && (#[trigger] t1[a]).2.len() > 0;
                if a < i {
                    assert(rv.take(i as int)[a] == t1[a]);
                }
            }
        }
        i += 1;
    }
    assert(rv.take(rows.len() as int) =~= rv);
    let t = if i64::MIN as i128 <= total && total <= i64::MAX as i128 {
        Some(total as i64)
    } else {
        None
    };
    (t, max, energy)
}

/// The project totals of a summary: of all entries, or, when `group` is
/// given, of the entries of that configured report group's projects.
pub fn summary_rows(intervals: &Vec<Interval>, config: &Config, group: Option<&str>, today: Date, now: Time) -> (r: Result<
    Vec<ProjectTotal>,
    String,
>)
    requires
        forall|i: int| 0 <= i < intervals@.len() ==> (#[trigger] intervals@[i])@.wf(),
        now.wf(),
        intervals@.len() * 1440 <= i64::MAX,
    ensures
        match group {
            None => r matches Ok(rows) && summarized(rows_view(rows@), selected(ivs(intervals@), None), today, now),
            Some(g) => match crate::config::first_exact(crate::config::group_keys(config.report_groups@), g@) {
                None => r matches Err(e) && e@ == "unknown report group '"@ + g@ + "'"@,
                Some(k) => r matches Ok(rows) && summarized(
                    rows_view(rows@),
                    selected(ivs(intervals@), Some(strs(config.report_groups@[k].1@))),
                    today,
                    now,
                ),
            },
        },
{
    match group {
        None => Ok(summarize(intervals, None, today, now)),
        Some(g) => match config.report_group(g) {
            None => {
                let gc = chars_of(g);
                Err(msg3("unknown report group '", &gc, "'"))
            },
            Some(set) => Ok(summarize(intervals, Some(set), today, now)),
        },
    }
}

} // verus!
