//! Weekly data files: their names, their lines, and the edits that close,
//! remove or trim an entry in place.
use vstd::prelude::*;

use crate::calendar::{
    add_days, chrono_add_days, chrono_day_number, chrono_iso_week, day_count, iso_week, Date,
    Time,
};
use crate::config::{join_path, path_join};
use crate::interval::{line_error, line_text, parse_line, strs, vv, Interval, IntervalV};
use crate::order::{sort_chars, str_le};
use crate::parse::{join, join_chars};
use crate::text::{
    all_digits, append_chars, append_str, chars_of, dec, dec_chars, digits_value, int_chars,
    int_str, is_digit, pad0, pad0_chars, slice_of, split_once, split_once_chars, string_of,
    owned, strip_suffix, strip_suffix_chars, trim, trim_chars,
};

verus! {

// ---------------------------------------------------------------------------
// File names
// ---------------------------------------------------------------------------

/// `YYYY-wWW.txt` for an ISO week.
pub open spec fn week_name(year: int, week: int) -> Seq<char> {
    int_str(year) + "-w"@ + pad0(dec(week as nat), 2) + ".txt"@
}

/// The ISO week of `d` as chrono computes it.
pub open spec fn iso_of(d: Date) -> (int, int) {
    chrono_iso_week(d.year as int, d.month as int, d.day as int)
}

/// The file name of an ISO week.
pub fn week_file_name(year: i32, week: u32) -> (r: String)
    ensures
        r@ == week_name(year as int, week as int),
{
    let mut v = int_chars(year as i64);
    append_str(&mut v, "-w");
    let w = dec_chars(week as u64);
    let wp = pad0_chars(&w, 2);
    append_chars(&mut v, &wp);
    append_str(&mut v, ".txt");
    string_of(&v)
}

/// The file that holds the entries of `date`: its ISO week's `YYYY-wWW.txt`.
pub fn week_filename(date: Date) -> (r: String)
    requires
        date.wf(),
    ensures
        r@ == week_name(iso_of(date).0, iso_of(date).1),
{
    let (y, w) = iso_week(date);
    week_file_name(y, w)
}

/// The path of the week file of `date` in `data_dir`.
pub fn week_filepath(data_dir: &str, date: Date) -> (r: String)
    requires
        date.wf(),
    ensures
        r@ == path_join(data_dir@, week_name(iso_of(date).0, iso_of(date).1)),
{
    let d = chars_of(data_dir);
    let name = week_filename(date);
    string_of(&join_path(&d, name.as_str()))
}

/// The week part of a file name: two characters, an optional `+` and
/// digits (`str::parse::<u32>`), between 1 and 53.
pub open spec fn week_part_ok(w: Seq<char>) -> bool {
    let d = if w.len() > 0 && w[0] == '+' {
        w.drop_first()
    } else {
        w
    };
    w.len() == 2 && d.len() > 0 && all_digits(d) && 1 <= digits_value(d) <= 53
}

/// Whether a file name is a week file: `YYYY-wWW.txt`, four digits for the
/// year and a week between 1 and 53.
pub open spec fn is_week_name(name: Seq<char>) -> bool {
    match strip_suffix(name, ".txt"@) {
        None => false,
        Some(stem) => match split_once(stem, "-w"@) {
            None => false,
            Some((y, w)) => y.len() == 4 && all_digits(y) && week_part_ok(w),
        },
    }
}

/// Whether a file name is a week file.
pub fn is_week_filename(name: &str) -> (r: bool)
    ensures
        r == is_week_name(name@),
{
    let n = chars_of(name);
    let stem = match strip_suffix_chars(&n, &chars_of(".txt")) {
        Some(s) => s,
        None => return false,
    };
    let (y, w) = match split_once_chars(&stem, &chars_of("-w")) {
        Some(p) => p,
        None => return false,
    };
    if y.len() != 4 || !all_digit_chars(&y) || w.len() != 2 {
        return false;
    }
    let d = if w[0] == '+' {
        slice_of(&w, 1, 2)
    } else {
        slice_of(&w, 0, 2)
    };
    assert(w@[0] == '+' ==> d@ =~= w@.drop_first());
    assert(w@[0] != '+' ==> d@ =~= w@);
    if !all_digit_chars(&d) {
        return false;
    }
    let v = two_digit_value(&d);
    1 <= v && v <= 53
}

/// Whether every character is a digit.
pub(crate) fn all_digit_chars(s: &[char]) -> (r: bool)
    ensures
        r == all_digits(s@),
{
    let mut i: usize = 0;
    while i < s.len()
        invariant
            i <= s.len(),
            forall|j: int| 0 <= j < i ==> is_digit(#[trigger] s@[j]),
        decreases s.len() - i,
    {
        if !('0' <= s[i] && s[i] <= '9') {
            return false;
        }
        i += 1;
    }
    true
}

/// The value of one or two digits.
fn two_digit_value(d: &[char]) -> (r: u32)
    requires
        1 <= d.len() <= 2,
        all_digits(d@),
    ensures
        r == digits_value(d@),
{
    assert(is_digit(d@[0]));
    let a = ((d[0] as u32) - ('0' as u32));
    assert(d@.subrange(0, 1).drop_last() =~= Seq::<char>::empty());
    assert(digits_value(Seq::<char>::empty()) == 0);
    assert(digits_value(d@.subrange(0, 1)) == a);
    if d.len() == 1 {
        assert(d@ =~= d@.subrange(0, 1));
        a
    } else {
        assert(is_digit(d@[1]));
        assert(d@.drop_last() =~= d@.subrange(0, 1));
        a * 10 + ((d[1] as u32) - ('0' as u32))
    }
}

/// Keeps the week files among directory entry names, in order.
pub fn week_files(names: &Vec<String>) -> (r: Vec<String>)
    ensures
        strs(r@) == strs(names@).filter(|n: Seq<char>| is_week_name(n)).sort_by(str_le()),
{
    let ghost pred = |n: Seq<char>| is_week_name(n);
    let mut kept: Vec<Vec<char>> = Vec::new();
    let mut i: usize = 0;
    assert(strs(names@).take(0).filter(pred) =~= Seq::<Seq<char>>::empty());
    while i < names.len()
        invariant
            i <= names.len(),
            pred == (|n: Seq<char>| is_week_name(n)),
            vv(kept@) == strs(names@).take(i as int).filter(pred),
        decreases names.len() - i,
    {
        let n = chars_of(names[i].as_str());
        let ghost k0 = vv(kept@);
        assert(strs(names@).take(i + 1) =~= strs(names@).take(i as int).push(n@));
        proof {
            strs(names@).take(i as int).lemma_filter_push(n@, pred);
        }
        let keep = is_week_filename(names[i].as_str());
        assert(n@ == names@[i as int]@);
        if keep {
            kept.push(n);
            assert(vv(kept@) =~= k0.push(n@));
        }
        assert(vv(kept@) == strs(names@).take(i as int).push(n@).filter(pred));
        i += 1;
    }
    assert(strs(names@).take(names.len() as int) =~= strs(names@));
    let sorted = sort_chars(&kept);
    let mut r: Vec<String> = Vec::new();
    let mut j: usize = 0;
    while j < sorted.len()
        invariant
            j <= sorted.len(),
            strs(r@) == vv(sorted@).take(j as int),
        decreases sorted.len() - j,
    {
        let ghost r0 = strs(r@);
        r.push(string_of(&sorted[j]));
        assert(strs(r@) =~= r0.push(sorted@[j as int]@));
        assert(vv(sorted@).take(j + 1) =~= vv(sorted@).take(j as int).push(sorted@[j as int]@));
        j += 1;
    }
    assert(vv(sorted@).take(sorted.len() as int) =~= vv(sorted@));
    r
}

/// The file name of an ISO week is recognised as a week file when the year
/// has four digits and the week is between 1 and 53.
pub proof fn law_week_name_recognised(year: int, week: int)
    requires
        1000 <= year <= 9999,
        1 <= week <= 53,
    ensures
        is_week_name(week_name(year, week)),
{
    reveal_strlit(".txt");
    reveal_strlit("-w");
    let ys = dec(year as nat);
    let ws = pad0(dec(week as nat), 2);
    crate::round_trip::lemma_dec(year as nat);
    crate::round_trip::lemma_dec(week as nat);
    crate::round_trip::lemma_pad0(dec(week as nat), 2);
    assert(ys.len() == 4) by {
        assert(year >= 1000);
        crate::round_trip::lemma_dec_at_least(year as nat);
    }
    let stem = ys + "-w"@ + ws;
    let name = week_name(year, week);
    assert(name =~= stem + ".txt"@);
    assert(name.subrange(name.len() - 4, name.len() as int) =~= ".txt"@);
    assert(name.subrange(0, name.len() - 4) =~= stem);
    assert(strip_suffix(name, ".txt"@) == Some(stem));
    let p = "-w"@;
    assert(stem.subrange(4, 6) =~= p);
    assert forall|j: int| 0 <= j < 4 implies !crate::text::matches_at(stem, p, j) by {
        if crate::text::matches_at(stem, p, j) {
            assert(stem.subrange(j, j + 2)[0] == stem[j]);
            assert(stem[j] == ys[j]);
            assert(is_digit(ys[j]));
        }
    }
    crate::text::lemma_find_from_first(stem, p, 0, 4);
    assert(stem.subrange(0, 4) =~= ys);
    assert(stem.subrange(6, stem.len() as int) =~= ws);
    assert(is_digit(ws[0]));
}

// ---------------------------------------------------------------------------
// Lines of a file
// ---------------------------------------------------------------------------

/// A line with a trailing carriage return removed.
pub open spec fn strip_cr(x: Seq<char>) -> Seq<char> {
    if x.len() > 0 && x.last() == '\r' {
        x.drop_last()
    } else {
        x
    }
}

/// One step of splitting into lines: the lines finished so far, and the
/// line being read.
pub open spec fn lines_step(st: (Seq<Seq<char>>, Seq<char>), c: char) -> (Seq<Seq<char>>, Seq<char>) {
    if c == '\n' {
        (st.0.push(strip_cr(st.1)), Seq::empty())
    } else {
        (st.0, st.1.push(c))
    }
}

/// The state after reading all of `s` from the left.
pub open spec fn lines_scan(s: Seq<char>) -> (Seq<Seq<char>>, Seq<char>)
    decreases s.len(),
{
    if s.len() == 0 {
        (Seq::empty(), Seq::empty())
    } else {
        lines_step(lines_scan(s.drop_last()), s.last())
    }
}

/// The lines of `s` (`str::lines`): split at `\n`, a `\r` before it removed,
/// no empty last line.
pub open spec fn lines(s: Seq<char>) -> Seq<Seq<char>> {
    let st = lines_scan(s);
    if st.1.len() > 0 {
        st.0.push(st.1)
    } else {
        st.0
    }
}

/// `str::lines`.
pub fn lines_of(s: &str) -> (r: Vec<Vec<char>>)
    ensures
        vv(r@) == lines(s@),
{
    let c = chars_of(s);
    let mut out: Vec<Vec<char>> = Vec::new();
    let mut cur: Vec<char> = Vec::new();
    let mut i: usize = 0;
    assert(vv(out@) =~= lines_scan(c@.take(0)).0);
    while i < c.len()
        invariant
            i <= c.len(),
            vv(out@) == lines_scan(c@.take(i as int)).0,
            cur@ == lines_scan(c@.take(i as int)).1,
        decreases c.len() - i,
    {
        assert(c@.take(i + 1).drop_last() =~= c@.take(i as int));
        let ch = c[i];
        if ch == '\n' {
            let ghost o0 = vv(out@);
            let line = if cur.len() > 0 && cur[cur.len() - 1] == '\r' {
                slice_of(&cur, 0, cur.len() - 1)
            } else {
                slice_of(&cur, 0, cur.len())
            };
            assert(cur@.len() > 0 && cur@.last() == '\r' ==> line@ =~= cur@.drop_last());
            assert(!(cur@.len() > 0 && cur@.last() == '\r') ==> line@ =~= cur@);
            out.push(line);
            assert(vv(out@) =~= o0.push(strip_cr(cur@)));
            cur = Vec::new();
        } else {
            cur.push(ch);
        }
        i += 1;
    }
    assert(c@.take(c.len() as int) =~= c@);
    if cur.len() > 0 {
        let ghost o0 = vv(out@);
        out.push(cur);
        assert(vv(out@) =~= o0.push(lines_scan(c@).1));
    }
    out
}

/// A blank line or a comment, which readers skip.
pub open spec fn skipped(l: Seq<char>) -> bool {
    trim(l).len() == 0 || trim(l)[0] == '#'
}

/// The entries of a file's lines, or `None` if a line that is neither blank
/// nor a comment does not parse.
pub open spec fn parse_lines(ls: Seq<Seq<char>>) -> Option<Seq<IntervalV>>
    decreases ls.len(),
{
    if ls.len() == 0 {
        Some(Seq::empty())
    } else {
        match parse_lines(ls.drop_last()) {
            None => None,
            Some(ivs) => if skipped(ls.last()) {
                Some(ivs)
            } else {
                match parse_line(trim(ls.last())) {
                    Some(iv) => Some(ivs.push(iv)),
                    None => None,
                }
            },
        }
    }
}

/// The index of the first line that does not parse.
pub open spec fn first_bad_line(ls: Seq<Seq<char>>) -> int
    decreases ls.len(),
{
    if ls.len() == 0 {
        0
    } else if parse_lines(ls.drop_last()) is None {
        first_bad_line(ls.drop_last())
    } else {
        ls.len() - 1
    }
}

/// The message for a file whose lines do not parse: the path, the number of
/// the first bad line, and why it does not parse.
pub open spec fn entries_error(ls: Seq<Seq<char>>, path: Seq<char>) -> Seq<char> {
    let k = first_bad_line(ls);
    path + seq![':'] + dec((k + 1) as nat) + ": "@ + line_error(trim(ls[k]))
}

proof fn lemma_first_bad_stays(ls: Seq<Seq<char>>, k: int)
    requires
        0 <= k <= ls.len(),
        parse_lines(ls.take(k)) is None,
    ensures
        first_bad_line(ls) == first_bad_line(ls.take(k)),
    decreases ls.len() - k,
{
    if k < ls.len() {
        assert(ls.take(k + 1).drop_last() =~= ls.take(k));
        lemma_first_bad_stays(ls, k + 1);
    } else {
        assert(ls.take(k) =~= ls);
    }
}

/// The contents of a sequence of entries.
pub open spec fn ivs(v: Seq<Interval>) -> Seq<IntervalV> {
    v.map_values(|iv: Interval| iv@)
}

proof fn lemma_parse_lines_stays_none(ls: Seq<Seq<char>>, k: int)
    requires
        0 <= k <= ls.len(),
        parse_lines(ls.take(k)) is None,
    ensures
        parse_lines(ls) is None,
    decreases ls.len() - k,
{
    if k < ls.len() {
        assert(ls.take(k + 1).drop_last() =~= ls.take(k));
        lemma_parse_lines_stays_none(ls, k + 1);
    } else {
        assert(ls.take(k) =~= ls);
    }
}

/// Whether a line is blank or a comment.
fn is_skipped(t: &[char]) -> (r: bool)
    ensures
        r == (t@.len() == 0 || t@[0] == '#'),
{
    t.len() == 0 || t[0] == '#'
}

/// The entries in the text of a week file, in order; blank lines and lines
/// starting with `#` are skipped, and the first line that does not parse is
/// an error naming `path` and the line number.
pub fn parse_entries(content: &str, path: &str) -> (r: Result<Vec<Interval>, String>)
    ensures
        r is Ok <==> parse_lines(lines(content@)) is Some,
        r matches Ok(v) ==> parse_lines(lines(content@)) == Some(ivs(v@)),
        r matches Err(m) ==> m@ == entries_error(lines(content@), path@),
        r matches Ok(v) ==> forall|i: int| 0 <= i < v@.len() ==> (#[trigger] v@[i])@.wf(),
{
    let ls = lines_of(content);
    let ghost L = lines(content@);
    let mut out: Vec<Interval> = Vec::new();
    let mut i: usize = 0;
    assert(ivs(out@) =~= Seq::<IntervalV>::empty());
    while i < ls.len()
        invariant
            L == vv(ls@),
            L == lines(content@),
            i <= ls.len(),
            parse_lines(L.take(i as int)) == Some(ivs(out@)),
            forall|k: int| 0 <= k < out@.len() ==> (#[trigger] out@[k])@.wf(),
        decreases ls.len() - i,
    {
        assert(L.take(i + 1).drop_last() =~= L.take(i as int));
        assert(L.take(i + 1).last() == ls@[i as int]@);
        let t = trim_chars(&ls[i]);
        if !is_skipped(&t) {
            let ts = string_of(&t);
            match Interval::parse(ts.as_str()) {
                Ok(iv) => {
                    let ghost o0 = ivs(out@);
                    out.push(iv);
                    assert(ivs(out@) =~= o0.push(iv@));
                },
                Err(e) => {
                    assert(!skipped(L.take(i + 1).last()));
                    assert(parse_line(trim(L.take(i + 1).last())) is None);
                    assert(parse_lines(L.take(i + 1)) is None);
                    proof {
                        lemma_parse_lines_stays_none(L, i as int + 1);
                        lemma_first_bad_stays(L, i as int + 1);
                        assert(first_bad_line(L.take(i + 1)) == i);
                        assert(L[i as int] == L.take(i + 1).last());
                    }
                    let mut v: Vec<char> = chars_of(path);
                    v.push(':');
                    let n = dec_chars((i as u64) + 1);
                    append_chars(&mut v, &n);
                    append_str(&mut v, ": ");
                    append_str(&mut v, e.as_str());
                    assert(v@ =~= entries_error(L, path@));
                    return Err(string_of(&v));
                },
            }
        }
        i += 1;
    }
    assert(L.take(ls.len() as int) =~= L);
    Ok(out)
}

// ---------------------------------------------------------------------------
// Editing entries in place
// ---------------------------------------------------------------------------

/// The running entry on a line, if the line holds one.
pub open spec fn open_entry(l: Seq<char>) -> Option<IntervalV> {
    if skipped(l) {
        None
    } else {
        match parse_line(trim(l)) {
            Some(iv) => if iv.end is None {
                Some(iv)
            } else {
                None
            },
            None => None,
        }
    }
}

/// The closed entry on a line, if the line holds one.
pub open spec fn closed_entry(l: Seq<char>) -> Option<IntervalV> {
    if skipped(l) {
        None
    } else {
        match parse_line(trim(l)) {
            Some(iv) => if iv.end is Some {
                Some(iv)
            } else {
                None
            },
            None => None,
        }
    }
}

/// The last position whose line satisfies `p`.
pub open spec fn last_where(ls: Seq<Seq<char>>, p: spec_fn(Seq<char>) -> bool) -> Option<int>
    decreases ls.len(),
{
    if ls.len() == 0 {
        None
    } else if p(ls.last()) {
        Some(ls.len() - 1)
    } else {
        last_where(ls.drop_last(), p)
    }
}

/// Lines holding a running entry.
pub open spec fn has_open() -> spec_fn(Seq<char>) -> bool {
    |l: Seq<char>| open_entry(l) is Some
}

/// Lines holding a closed entry.
pub open spec fn has_closed() -> spec_fn(Seq<char>) -> bool {
    |l: Seq<char>| closed_entry(l) is Some
}

/// The text of a file with these lines: each line ends with `\n`.
pub open spec fn file_text(ls: Seq<Seq<char>>) -> Seq<char> {
    join(ls, seq!['\n']) + seq!['\n']
}

/// A running entry closed at `end`, with the energy level replaced when one is given.
pub open spec fn closed_at(iv: IntervalV, end: Time, energy: Option<u8>) -> IntervalV {
    IntervalV {
        end: Some(end),
        energy: if energy is Some {
            energy
        } else {
            iv.energy
        },
        ..iv
    }
}

/// If line `k` satisfies `p` and none after it does, `k` is the last such line.
proof fn lemma_last_where_found(ls: Seq<Seq<char>>, p: spec_fn(Seq<char>) -> bool, k: int)
    requires
        0 <= k < ls.len(),
        p(ls[k]),
        forall|m: int| k < m < ls.len() ==> !p(#[trigger] ls[m]),
    ensures
        last_where(ls, p) == Some(k),
    decreases ls.len(),
{
    if k < ls.len() - 1 {
        assert(!p(ls[ls.len() - 1]));
        let d = ls.drop_last();
        assert forall|m: int| k < m < d.len() implies !p(#[trigger] d[m]) by {
            assert(d[m] == ls[m]);
        }
        lemma_last_where_found(d, p, k);
    }
}

/// If no line satisfies `p`, there is no last such line.
proof fn lemma_last_where_none(ls: Seq<Seq<char>>, p: spec_fn(Seq<char>) -> bool)
    requires
        forall|m: int| 0 <= m < ls.len() ==> !p(#[trigger] ls[m]),
    ensures
        last_where(ls, p) is None,
    decreases ls.len(),
{
    if ls.len() > 0 {
        let d = ls.drop_last();
        assert(!p(ls[ls.len() - 1]));
        assert forall|m: int| 0 <= m < d.len() implies !p(#[trigger] d[m]) by {
            assert(d[m] == ls[m]);
        }
        lemma_last_where_none(d, p);
    }
}

/// The text of a file with these lines.
fn file_chars(ls: &Vec<Vec<char>>) -> (r: Vec<char>)
    ensures
        r@ == file_text(vv(ls@)),
{
    let sep = vec!['\n'];
    assert(sep@ =~= seq!['\n']);
    let mut r = join_chars(ls, &sep);
    r.push('\n');
    r
}

/// Finds the last line, searching from the end, that holds a running entry
/// (`want_open`) or a closed one.
fn find_last(ls: &Vec<Vec<char>>, want_open: bool) -> (r: Option<(usize, Interval)>)
    ensures
        match r {
            Some((k, iv)) => {
                &&& k < ls@.len()
                &&& last_where(vv(ls@), if want_open { has_open() } else { has_closed() }) == Some(k as int)
                &&& if want_open {
                    open_entry(ls@[k as int]@) == Some(iv@)
                } else {
                    closed_entry(ls@[k as int]@) == Some(iv@)
                }
                &&& iv@.wf()
            },
            None => last_where(vv(ls@), if want_open { has_open() } else { has_closed() }) is None,
        },
{
    let ghost p = if want_open {
        has_open()
    } else {
        has_closed()
    };
    let ghost L = vv(ls@);
    let mut j: usize = ls.len();
    while j > 0
        invariant
            j <= ls.len(),
            L == vv(ls@),
            p == (if want_open { has_open() } else { has_closed() }),
            forall|m: int| j <= m < ls@.len() ==> !p(#[trigger] L[m]),
        decreases j,
    {
        let t = trim_chars(&ls[j - 1]);
        if !is_skipped(&t) {
            let ts = string_of(&t);
            match Interval::parse(ts.as_str()) {
                Ok(iv) => {
                    if iv.is_open() == want_open {
                        proof {
                            lemma_last_where_found(L, p, j - 1);
                        }
                        return Some((j - 1, iv));
                    }
                },
                Err(_) => {},
            }
        }
        j -= 1;
    }
    proof {
        lemma_last_where_none(L, p);
    }
    None
}

/// Closes the last running entry in a file's text at `end`, setting the
/// energy level when one is given. Returns the closed entry and the new
/// text, in which only that line changed; `None` when no line holds a
/// running entry.
pub fn close_open_text(content: &str, end: Time, energy: Option<u8>) -> (r: Option<(Interval, String)>)
    ensures
        match last_where(lines(content@), has_open()) {
            None => r is None,
            Some(k) => r matches Some((iv, text)) && iv@ == closed_at(
                open_entry(lines(content@)[k]).unwrap(),
                end,
                energy,
            ) && text@ == file_text(lines(content@).update(k, line_text(iv@))),
        },
        r matches Some((iv, text)) ==> (parse_lines(lines(content@)) is Some && end.wf()
            && crate::interval::valid_energy(energy) ==> parse_lines(lines(text@)) == Some(
            parse_lines(lines(content@)).unwrap().update(
                crate::rewrite::count_entries(
                    lines(content@).take(last_where(lines(content@), has_open()).unwrap()),
                ) as int,
                iv@,
            ),
        )),
{
    let mut ls = lines_of(content);
    match find_last(&ls, true) {
        None => None,
        Some((k, iv)) => {
            let mut iv = iv;
            iv.end = Some(end);
            if energy.is_some() {
                iv.energy = energy;
            }
            let line = iv.serialize();
            let ghost before = vv(ls@);
            ls.set(k, chars_of(line.as_str()));
            assert(vv(ls@) =~= before.update(k as int, line@));
            let text = file_chars(&ls);
            proof {
                if parse_lines(lines(content@)) is Some && end.wf() && crate::interval::valid_energy(
                    energy,
                ) {
                    crate::rewrite::law_close_read_back(content@, end, energy);
                }
            }
            Some((iv, string_of(&text)))
        },
    }
}

/// Removes the last running entry from a file's text. Returns the removed
/// entry and the new text (empty when no line is left); `None` when no line
/// holds a running entry.
pub fn remove_open_text(content: &str) -> (r: Option<(Interval, String)>)
    ensures
        match last_where(lines(content@), has_open()) {
            None => r is None,
            Some(k) => r matches Some((iv, text)) && Some(iv@) == open_entry(lines(content@)[k])
                && text@ == (if lines(content@).len() == 1 {
                Seq::<char>::empty()
            } else {
                file_text(lines(content@).remove(k))
            }),
        },
        r matches Some((iv, text)) ==> (parse_lines(lines(content@)) is Some ==> parse_lines(
            lines(text@),
        ) == Some(
            parse_lines(lines(content@)).unwrap().remove(
                crate::rewrite::count_entries(
                    lines(content@).take(last_where(lines(content@), has_open()).unwrap()),
                ) as int,
            ),
        )),
{
    let mut ls = lines_of(content);
    match find_last(&ls, true) {
        None => None,
        Some((k, iv)) => {
            let ghost before = vv(ls@);
            ls.remove(k);
            assert(vv(ls@) =~= before.remove(k as int));
            proof {
                if parse_lines(lines(content@)) is Some {
                    crate::rewrite::law_remove_read_back(content@);
                }
            }
            if ls.len() == 0 {
                Some((iv, String::new()))
            } else {
                let text = file_chars(&ls);
                Some((iv, string_of(&text)))
            }
        },
    }
}

/// The message when trimming would end an entry before it starts.
pub open spec fn negative_trim_msg() -> Seq<char> {
    "inject would make previous entry negative; use 'teum add' instead"@
}

/// Moves the end of the last closed entry in a file's text to `new_end`.
/// Returns the changed entry and the new text; `None` when no line holds a
/// closed entry; an error when `new_end` is before that entry's start.
pub fn trim_last_end_text(content: &str, new_end: Time) -> (r: Result<Option<(Interval, String)>, String>)
    requires
        new_end.wf(),
    ensures
        match last_where(lines(content@), has_closed()) {
            None => r == Ok::<Option<(Interval, String)>, String>(None),
            Some(k) => {
                let old_iv = closed_entry(lines(content@)[k]).unwrap();
                if new_end.mins() < old_iv.start.mins() {
                    r matches Err(e) && e@ == negative_trim_msg()
                } else {
                    r matches Ok(Some((iv, text))) && iv@ == IntervalV { end: Some(new_end), ..old_iv }
                        && text@ == file_text(lines(content@).update(k, line_text(iv@)))
                }
            },
        },
        r matches Ok(Some((iv, text))) ==> (parse_lines(lines(content@)) is Some ==> parse_lines(
            lines(text@),
        ) == Some(
            parse_lines(lines(content@)).unwrap().update(
                crate::rewrite::count_entries(
                    lines(content@).take(last_where(lines(content@), has_closed()).unwrap()),
                ) as int,
                iv@,
            ),
        )),
{
    let mut ls = lines_of(content);
    match find_last(&ls, false) {
        None => Ok(None),
        Some((k, iv)) => {
            if new_end.minutes() < iv.start.minutes() {
                let mut v: Vec<char> = Vec::new();
                append_str(&mut v, "inject would make previous entry negative; use 'teum add' instead");
                return Err(string_of(&v));
            }
            let mut iv = iv;
            iv.end = Some(new_end);
            let line = iv.serialize();
            let ghost before = vv(ls@);
            ls.set(k, chars_of(line.as_str()));
            assert(vv(ls@) =~= before.update(k as int, line@));
            let text = file_chars(&ls);
            proof {
                if parse_lines(lines(content@)) is Some {
                    crate::rewrite::law_trim_read_back(content@, new_end);
                }
            }
            Ok(Some((iv, string_of(&text))))
        },
    }
}

// ---------------------------------------------------------------------------
// Finding entries across files
// ---------------------------------------------------------------------------

/// The entries of one file, each with the file's path.
pub open spec fn file_entries(path: Seq<char>, v: Seq<IntervalV>) -> Seq<(IntervalV, Seq<char>)> {
    v.map_values(|iv: IntervalV| (iv, path))
}

/// The entries of all files, in file order and line order, with their paths.
pub open spec fn all_entries(files: Seq<(Seq<char>, Seq<IntervalV>)>) -> Seq<(IntervalV, Seq<char>)>
    decreases files.len(),
{
    if files.len() == 0 {
        Seq::empty()
    } else {
        all_entries(files.drop_last()) + file_entries(files.last().0, files.last().1)
    }
}

/// The contents of files read: path and entries.
pub open spec fn files_view(files: Seq<(String, Vec<Interval>)>) -> Seq<(Seq<char>, Seq<IntervalV>)> {
    files.map_values(|f: (String, Vec<Interval>)| (f.0@, ivs(f.1@)))
}

/// The running entries among `es`.
pub open spec fn running(es: Seq<(IntervalV, Seq<char>)>) -> Seq<(IntervalV, Seq<char>)> {
    es.filter(|e: (IntervalV, Seq<char>)| e.0.end is None)
}

/// The message when more than one timer is running.
pub open spec fn many_open_msg(n: nat) -> Seq<char> {
    "found "@ + dec(n) + " open intervals; run 'teum edit' and leave exactly one open timer"@
}

/// The running entry across all files, if there is exactly one. A running
/// entry dated after `today`, or more than one running entry, is an error.
pub open spec fn find_open_spec(files: Seq<(Seq<char>, Seq<IntervalV>)>, today: Date) -> Result<
    Option<(IntervalV, Seq<char>)>,
    (),
> {
    let r = running(all_entries(files));
    if exists|i: int| 0 <= i < r.len() && today.lt(#[trigger] r[i].0.date) {
        Err(())
    } else if r.len() == 0 {
        Ok(None)
    } else if r.len() == 1 {
        Ok(Some(r[0]))
    } else {
        Err(())
    }
}

proof fn lemma_all_entries_step(files: Seq<(Seq<char>, Seq<IntervalV>)>, i: int, j: int)
    requires
        0 <= i < files.len(),
        0 <= j < files[i].1.len(),
    ensures
        all_entries(files.take(i)) + file_entries(files[i].0, files[i].1.take(j + 1)) == (
        all_entries(files.take(i)) + file_entries(files[i].0, files[i].1.take(j))).push(
            (files[i].1[j], files[i].0),
        ),
{
    assert(file_entries(files[i].0, files[i].1.take(j + 1)) =~= file_entries(
        files[i].0,
        files[i].1.take(j),
    ).push((files[i].1[j], files[i].0)));
    assert(all_entries(files.take(i)) + file_entries(files[i].0, files[i].1.take(j + 1)) =~= (
    all_entries(files.take(i)) + file_entries(files[i].0, files[i].1.take(j))).push(
        (files[i].1[j], files[i].0),
    ));
}

proof fn lemma_all_entries_next(files: Seq<(Seq<char>, Seq<IntervalV>)>, i: int)
    requires
        0 <= i < files.len(),
    ensures
        all_entries(files.take(i + 1)) == all_entries(files.take(i)) + file_entries(
            files[i].0,
            files[i].1.take(files[i].1.len() as int),
        ),
{
    assert(files.take(i + 1).drop_last() =~= files.take(i));
    assert(files[i].1.take(files[i].1.len() as int) =~= files[i].1);
}

/// Every entry of every file is among all entries.
proof fn lemma_entry_in_all(files: Seq<(Seq<char>, Seq<IntervalV>)>, i: int, j: int)
    requires
        0 <= i < files.len(),
        0 <= j < files[i].1.len(),
    ensures
        all_entries(files).contains((files[i].1[j], files[i].0)),
    decreases files.len(),
{
    let a = all_entries(files.drop_last());
    let f = file_entries(files.last().0, files.last().1);
    if i == files.len() - 1 {
        assert((a + f)[a.len() + j] == f[j]);
    } else {
        lemma_entry_in_all(files.drop_last(), i, j);
        assert(files.drop_last()[i] == files[i]);
        let k = choose|k: int| 0 <= k < a.len() && a[k] == (files[i].1[j], files[i].0);
        assert((a + f)[k] == a[k]);
    }
}

/// Some running entry is dated after `today`.
pub open spec fn has_future(r: Seq<(IntervalV, Seq<char>)>, today: Date) -> bool {
    exists|i: int| 0 <= i < r.len() && today.lt(#[trigger] r[i].0.date)
}

/// The position of the first entry dated after `today` (when there is one).
pub open spec fn first_future(r: Seq<(IntervalV, Seq<char>)>, today: Date) -> int
    decreases r.len(),
{
    if r.len() == 0 {
        0
    } else if has_future(r.drop_last(), today) {
        first_future(r.drop_last(), today)
    } else {
        r.len() - 1
    }
}

/// The message for a running entry dated after today.
pub open spec fn future_msg(e: (IntervalV, Seq<char>)) -> Seq<char> {
    "open interval starts in the future ("@ + crate::calendar::date_text(e.0.date) + seq![' ']
        + crate::calendar::time_text(e.0.start) + ":00 in "@ + e.1 + seq![')']
}

proof fn lemma_all_entries_append(a: Seq<(Seq<char>, Seq<IntervalV>)>, b: Seq<(Seq<char>, Seq<IntervalV>)>)
    ensures
        all_entries(a + b) == all_entries(a) + all_entries(b),
    decreases b.len(),
{
    if b.len() == 0 {
        assert(a + b =~= a);
    } else {
        assert((a + b).drop_last() =~= a + b.drop_last());
        lemma_all_entries_append(a, b.drop_last());
        assert((a + b).last() == b.last());
    }
}

/// The entries of all files split around entry `j` of file `i`.
proof fn lemma_all_entries_split(files: Seq<(Seq<char>, Seq<IntervalV>)>, i: int, j: int) -> (q: Seq<
    (IntervalV, Seq<char>),
>)
    requires
        0 <= i < files.len(),
        0 <= j < files[i].1.len(),
    ensures
        all_entries(files) == all_entries(files.take(i)) + file_entries(
            files[i].0,
            files[i].1.take(j + 1),
        ) + q,
{
    let f = files[i];
    assert(files =~= files.take(i) + seq![f] + files.skip(i + 1));
    lemma_all_entries_append(files.take(i) + seq![f], files.skip(i + 1));
    lemma_all_entries_append(files.take(i), seq![f]);
    assert(seq![f].drop_last() =~= Seq::<(Seq<char>, Seq<IntervalV>)>::empty());
    assert(seq![f].last() == f);
    assert(all_entries(Seq::<(Seq<char>, Seq<IntervalV>)>::empty()) == Seq::<(IntervalV, Seq<char>)>::empty());
    assert(Seq::<(IntervalV, Seq<char>)>::empty() + file_entries(f.0, f.1) =~= file_entries(f.0, f.1));
    assert(all_entries(seq![f]) == file_entries(f.0, f.1));
    assert(file_entries(f.0, f.1) =~= file_entries(f.0, f.1.take(j + 1)) + file_entries(f.0, f.1.skip(j + 1)));
    let q = file_entries(f.0, f.1.skip(j + 1)) + all_entries(files.skip(i + 1));
    assert(all_entries(files) =~= all_entries(files.take(i)) + file_entries(f.0, f.1.take(j + 1)) + q);
    q
}

/// The first entry dated after today is the first such in order.
proof fn lemma_first_future_at(a: Seq<(IntervalV, Seq<char>)>, e: (IntervalV, Seq<char>), b: Seq<(IntervalV, Seq<char>)>, today: Date)
    requires
        !has_future(a, today),
        today.lt(e.0.date),
    ensures
        first_future(a.push(e) + b, today) == a.len(),
        has_future(a.push(e) + b, today),
        (a.push(e) + b)[a.len() as int] == e,
    decreases b.len(),
{
    let s = a.push(e) + b;
    assert(s[a.len() as int] == e);
    if b.len() == 0 {
        assert(s =~= a.push(e));
        assert(s.drop_last() =~= a);
    } else {
        assert(s.drop_last() =~= a.push(e) + b.drop_last());
        lemma_first_future_at(a, e, b.drop_last(), today);
    }
}

/// The running entry across all files read, and its file's path.
pub fn find_open(files: &Vec<(String, Vec<Interval>)>, today: Date) -> (r: Result<Option<(Interval, String)>, String>)
    ensures
        match find_open_spec(files_view(files@), today) {
            Err(()) => r is Err,
            Ok(None) => r matches Ok(None),
            Ok(Some(e)) => r matches Ok(Some((iv, p))) && iv@ == e.0 && p@ == e.1,
        },
        (running(all_entries(files_view(files@))).len() > 1 && !(exists|i: int|
            0 <= i < running(all_entries(files_view(files@))).len() && today.lt(
                #[trigger] running(all_entries(files_view(files@)))[i].0.date,
            ))) ==> (r matches Err(e) && e@ == many_open_msg(
            running(all_entries(files_view(files@))).len(),
        )),
        has_future(running(all_entries(files_view(files@))), today) ==> (r matches Err(e) && e@
            == future_msg(
            running(all_entries(files_view(files@)))[first_future(
                running(all_entries(files_view(files@))),
                today,
            )],
        )),
{
    let ghost F = files_view(files@);
    let ghost pred = |e: (IntervalV, Seq<char>)| e.0.end is None;
    let mut found: Vec<(usize, usize)> = Vec::new();
    let mut i: usize = 0;
    assert(all_entries(F.take(0)) =~= Seq::<(IntervalV, Seq<char>)>::empty());
    while i < files.len()
        invariant
            F == files_view(files@),
            pred == (|e: (IntervalV, Seq<char>)| e.0.end is None),
            i <= files.len(),
            found@.len() == running(all_entries(F.take(i as int))).len(),
            forall|k: int| 0 <= k < found@.len() ==> {
                let (a, b) = #[trigger] found@[k];
                &&& a < files@.len()
                &&& b < files@[a as int].1@.len()
                &&& running(all_entries(F.take(i as int)))[k] == (files@[a as int].1@[b as int]@, files@[a as int].0@)
            },
            forall|k: int| 0 <= k < running(all_entries(F.take(i as int))).len() ==> !today.lt(
                #[trigger] running(all_entries(F.take(i as int)))[k].0.date,
            ),
        decreases files.len() - i,
    {
        let ivs_i = &files[i].1;
        let mut j: usize = 0;
        assert(file_entries(F[i as int].0, F[i as int].1.take(0)) =~= Seq::<(IntervalV, Seq<char>)>::empty());
        assert(all_entries(F.take(i as int)) + file_entries(F[i as int].0, F[i as int].1.take(0)) =~= all_entries(F.take(i as int)));
        while j < ivs_i.len()
            invariant
                F == files_view(files@),
                pred == (|e: (IntervalV, Seq<char>)| e.0.end is None),
                i < files.len(),
                *ivs_i == files@[i as int].1,
                j <= ivs_i.len(),
                found@.len() == (all_entries(F.take(i as int)) + file_entries(F[i as int].0, F[i as int].1.take(j as int))).filter(pred).len(),
                forall|k: int| 0 <= k < found@.len() ==> {
                    let (a, b) = #[trigger] found@[k];
                    &&& a < files@.len()
                    &&& b < files@[a as int].1@.len()
                    &&& (all_entries(F.take(i as int)) + file_entries(F[i as int].0, F[i as int].1.take(j as int))).filter(pred)[k] == (files@[a as int].1@[b as int]@, files@[a as int].0@)
                },
                forall|k: int| 0 <= k < (all_entries(F.take(i as int)) + file_entries(F[i as int].0, F[i as int].1.take(j as int))).filter(pred).len() ==> !today.lt(
                    #[trigger] (all_entries(F.take(i as int)) + file_entries(F[i as int].0, F[i as int].1.take(j as int))).filter(pred)[k].0.date,
                ),
            decreases ivs_i.len() - j,
        {
            let ghost prev = all_entries(F.take(i as int)) + file_entries(F[i as int].0, F[i as int].1.take(j as int));
            let ghost e = (F[i as int].1[j as int], F[i as int].0);
            proof {
                lemma_all_entries_step(F, i as int, j as int);
                prev.lemma_filter_push(e, pred);
            }
            assert(e.0 == ivs_i@[j as int]@);
            assert(e.1 == files@[i as int].0@);
            if ivs_i[j].is_open() {
                if today.before(&ivs_i[j].date) {
                    proof {
                        lemma_entry_in_all(F, i as int, j as int);
                        let all = all_entries(F);
                        let idx = choose|idx: int| 0 <= idx < all.len() && all[idx] == e;
                        all.lemma_filter_contains(pred, idx);
                        let r = running(all);
                        assert(r == all.filter(pred));
                        let k = choose|k: int| 0 <= k < r.len() && r[k] == e;
                        assert(today.lt(r[k].0.date));
                        let q = lemma_all_entries_split(F, i as int, j as int);
                        assert(all_entries(F.take(i as int)) + file_entries(F[i as int].0, F[i as int].1.take(j + 1)) == prev.push(e));
                        Seq::filter_distributes_over_add(prev.push(e), q, pred);
                        assert(prev.push(e).filter(pred) == prev.filter(pred).push(e));
                        assert(!has_future(prev.filter(pred), today)) by {
                            if has_future(prev.filter(pred), today) {
                                let m = choose|m: int| 0 <= m < prev.filter(pred).len() && today.lt(#[trigger] prev.filter(pred)[m].0.date);
                                assert(!today.lt(prev.filter(pred)[m].0.date));
                            }
                        }
                        assert(r =~= prev.filter(pred).push(e) + q.filter(pred));
                        lemma_first_future_at(prev.filter(pred), e, q.filter(pred), today);
                    }
                    let iv = &ivs_i[j];
                    let mut v: Vec<char> = Vec::new();
                    append_str(&mut v, "open interval starts in the future (");
                    crate::calendar::push_date(&mut v, iv.date);
                    v.push(' ');
                    crate::calendar::push_time(&mut v, iv.start);
                    append_str(&mut v, ":00 in ");
                    append_str(&mut v, files[i].0.as_str());
                    v.push(')');
                    assert(v@ =~= future_msg(e));
                    return Err(string_of(&v));
                }
                found.push((i, j));
            }
            j += 1;
        }
        proof {
            lemma_all_entries_next(F, i as int);
        }
        i += 1;
    }
    assert(F.take(files.len() as int) =~= F);
    if found.len() == 0 {
        Ok(None)
    } else if found.len() == 1 {
        let (a, b) = found[0];
        Ok(Some((files[a].1[b].copy(), files[a].0.clone())))
    } else {
        let mut v: Vec<char> = Vec::new();
        append_str(&mut v, "found ");
        let n = dec_chars(found.len() as u64);
        append_chars(&mut v, &n);
        append_str(&mut v, " open intervals; run 'teum edit' and leave exactly one open timer");
        Err(string_of(&v))
    }
}

/// `a` starts later than `b`.
pub open spec fn starts_later(a: IntervalV, b: IntervalV) -> bool {
    b.date.lt(a.date) || (a.date == b.date && a.start.mins() > b.start.mins())
}

/// Reads one entry while looking for the latest closed entry up to `today`;
/// of entries starting at the same moment the first one read is kept.
pub open spec fn last_closed_step(acc: Option<IntervalV>, iv: IntervalV, today: Date) -> Option<IntervalV> {
    if iv.end is Some && !today.lt(iv.date) && (acc is None || starts_later(iv, acc->0)) {
        Some(iv)
    } else {
        acc
    }
}

/// The latest closed entry dated up to `today` among `es`.
pub open spec fn last_closed(es: Seq<(IntervalV, Seq<char>)>, today: Date) -> Option<IntervalV>
    decreases es.len(),
{
    if es.len() == 0 {
        None
    } else {
        last_closed_step(last_closed(es.drop_last(), today), es.last().0, today)
    }
}

/// The entry found for resuming is a closed entry dated up to `today`, and
/// no other such entry starts later: none has a later date, or the same
/// date and a later start time. There is none only when no entry is closed
/// and dated up to `today`.
pub proof fn law_last_closed_latest(es: Seq<(IntervalV, Seq<char>)>, today: Date)
    ensures
        last_closed(es, today) matches Some(x) ==> {
            &&& exists|k: int| 0 <= k < es.len() && (#[trigger] es[k]).0 == x
            &&& x.end is Some && !today.lt(x.date)
            &&& forall|k: int|
                0 <= k < es.len() && (#[trigger] es[k]).0.end is Some && !today.lt(es[k].0.date) ==> !(
                x.date.lt(es[k].0.date) || (x.date == es[k].0.date && x.start.mins() < es[k].0.start.mins()))
        },
        last_closed(es, today) is None ==> forall|k: int|
            0 <= k < es.len() ==> !((#[trigger] es[k]).0.end is Some && !today.lt(es[k].0.date)),
    decreases es.len(),
{
    if es.len() > 0 {
        let dl = es.drop_last();
        law_last_closed_latest(dl, today);
        let iv = es.last().0;
        let n = es.len() - 1;
        assert(es[n] == es.last());
        assert forall|k: int| 0 <= k < dl.len() implies #[trigger] es[k] == dl[k] by {}
        match last_closed(es, today) {
            Some(x) => {
                if last_closed(dl, today) == Some(x) {
                    let kc = choose|k: int| 0 <= k < dl.len() && (#[trigger] dl[k]).0 == x;
                    assert(es[kc].0 == x);
                } else {
                    assert(x == iv);
                }
                assert forall|k: int|
                    0 <= k < es.len() && (#[trigger] es[k]).0.end is Some && !today.lt(es[k].0.date) implies !(
                    x.date.lt(es[k].0.date) || (x.date == es[k].0.date && x.start.mins() < es[k].0.start.mins())) by {
                    if k < dl.len() {
                        assert(dl[k] == es[k]);
                    }
                }
            },
            None => {
                assert forall|k: int| 0 <= k < es.len() implies !((#[trigger] es[k]).0.end is Some && !today.lt(
                    es[k].0.date,
                )) by {
                    if k < dl.len() {
                        assert(dl[k] == es[k]);
                    }
                }
            },
        }
    }
}

/// The closed entry that starts latest among those dated up to `today`,
/// across all files read.
pub fn find_last_closed(files: &Vec<(String, Vec<Interval>)>, today: Date) -> (r: Option<Interval>)
    requires
        forall|i: int, j: int| 0 <= i < files@.len() && 0 <= j < files@[i].1@.len() ==> (
        #[trigger] files@[i].1@[j])@.start.wf(),
    ensures
        match last_closed(all_entries(files_view(files@)), today) {
            Some(iv) => r matches Some(x) && x@ == iv,
            None => r is None,
        },
        r matches Some(x) ==> {
            let es = all_entries(files_view(files@));
            &&& x@.end is Some && !today.lt(x@.date)
            &&& forall|k: int|
                0 <= k < es.len() && (#[trigger] es[k]).0.end is Some && !today.lt(es[k].0.date) ==> !(
                x@.date.lt(es[k].0.date) || (x@.date == es[k].0.date && x@.start.mins() < es[k].0.start.mins()))
        },
{
    proof {
        law_last_closed_latest(all_entries(files_view(files@)), today);
    }
    let ghost F = files_view(files@);
    let mut best: Option<(usize, usize)> = None;
    let mut i: usize = 0;
    assert(all_entries(F.take(0)) =~= Seq::<(IntervalV, Seq<char>)>::empty());
    while i < files.len()
        invariant
            F == files_view(files@),
            forall|i: int, j: int| 0 <= i < files@.len() && 0 <= j < files@[i].1@.len() ==> (
            #[trigger] files@[i].1@[j])@.start.wf(),
            i <= files.len(),
            match best {
                Some((a, b)) => a < files@.len() && b < files@[a as int].1@.len()
                    && last_closed(all_entries(F.take(i as int)), today) == Some(files@[a as int].1@[b as int]@),
                None => last_closed(all_entries(F.take(i as int)), today) is None,
            },
        decreases files.len() - i,
    {
        let ivs_i = &files[i].1;
        let mut j: usize = 0;
        assert(all_entries(F.take(i as int)) + file_entries(F[i as int].0, F[i as int].1.take(0)) =~= all_entries(F.take(i as int)));
        while j < ivs_i.len()
            invariant
                F == files_view(files@),
                forall|i: int, j: int| 0 <= i < files@.len() && 0 <= j < files@[i].1@.len() ==> (
                #[trigger] files@[i].1@[j])@.start.wf(),
                i < files.len(),
                *ivs_i == files@[i as int].1,
                j <= ivs_i.len(),
                match best {
                    Some((a, b)) => a < files@.len() && b < files@[a as int].1@.len()
                        && last_closed(all_entries(F.take(i as int)) + file_entries(F[i as int].0, F[i as int].1.take(j as int)), today) == Some(files@[a as int].1@[b as int]@),
                    None => last_closed(all_entries(F.take(i as int)) + file_entries(F[i as int].0, F[i as int].1.take(j as int)), today) is None,
                },
            decreases ivs_i.len() - j,
        {
            let ghost prev = all_entries(F.take(i as int)) + file_entries(F[i as int].0, F[i as int].1.take(j as int));
            let ghost e = (F[i as int].1[j as int], F[i as int].0);
            proof {
                lemma_all_entries_step(F, i as int, j as int);
                assert(prev.push(e).drop_last() =~= prev);
            }
            let iv = &ivs_i[j];
            assert(e.0 == iv@);
            assert(iv@.start.wf());
            if !iv.is_open() && !today.before(&iv.date) {
                let take = match best {
                    None => true,
                    Some((a, b)) => {
                        let cur = &files[a].1[b];
                        assert(cur@.start.wf());
                        cur.date.before(&iv.date) || (iv.date == cur.date && iv.start.minutes() > cur.start.minutes())
                    },
                };
                if take {
                    best = Some((i, j));
                }
            }
            j += 1;
        }
        proof {
            lemma_all_entries_next(F, i as int);
        }
        i += 1;
    }
    assert(F.take(files.len() as int) =~= F);
    match best {
        Some((a, b)) => Some(files[a].1[b].copy()),
        None => None,
    }
}

// ---------------------------------------------------------------------------
// Date ranges
// ---------------------------------------------------------------------------

/// The date `m` days after `start`, stepping one day at a time.
pub open spec fn nth_day(start: Date, m: nat) -> Option<Date>
    decreases m,
{
    if m == 0 {
        Some(start)
    } else {
        match nth_day(start, (m - 1) as nat) {
            Some(d) => crate::period::date_add(d, 1),
            None => None,
        }
    }
}

/// The distinct ISO weeks of the first `count` days from `start`, in order of
/// first appearance; `None` when a day cannot be represented.
pub open spec fn day_weeks(start: Date, count: nat) -> Option<Seq<(int, int)>>
    decreases count,
{
    if count == 0 {
        Some(Seq::empty())
    } else {
        match day_weeks(start, (count - 1) as nat) {
            None => None,
            Some(ws) => match nth_day(start, (count - 1) as nat) {
                None => None,
                Some(d) => if ws.contains(iso_of(d)) {
                    Some(ws)
                } else {
                    Some(ws.push(iso_of(d)))
                },
            },
        }
    }
}

/// The number of days from `start` to `end`, both included.
pub open spec fn days_in_range(start: Date, end: Date) -> nat {
    let a = chrono_day_number(start.year as int, start.month as int, start.day as int);
    let b = chrono_day_number(end.year as int, end.month as int, end.day as int);
    if b >= a {
        (b - a + 1) as nat
    } else {
        0
    }
}

/// Whether `w` is among `ws`.
fn contains_week(ws: &Vec<(i32, u32)>, w: (i32, u32)) -> (r: bool)
    ensures
        r == ws@.map_values(|x: (i32, u32)| (x.0 as int, x.1 as int)).contains((w.0 as int, w.1 as int)),
{
    let ghost m = ws@.map_values(|x: (i32, u32)| (x.0 as int, x.1 as int));
    let mut i: usize = 0;
    while i < ws.len()
        invariant
            i <= ws.len(),
            m == ws@.map_values(|x: (i32, u32)| (x.0 as int, x.1 as int)),
            forall|k: int| 0 <= k < i ==> #[trigger] m[k] != (w.0 as int, w.1 as int),
        decreases ws.len() - i,
    {
        if ws[i].0 == w.0 && ws[i].1 == w.1 {
            assert(m[i as int] == (w.0 as int, w.1 as int));
            return true;
        }
        i += 1;
    }
    false
}

/// The ISO weeks whose files may hold entries from `start` to `end`, in
/// order of first appearance.
pub fn range_weeks(start: Date, end: Date) -> (r: Result<Vec<(i32, u32)>, String>)
    requires
        start.wf(),
        end.wf(),
    ensures
        match day_weeks(start, days_in_range(start, end)) {
            Some(ws) => r matches Ok(v) && v@.map_values(|x: (i32, u32)| (x.0 as int, x.1 as int)) == ws,
            None => r matches Err(e) && e@ == "date out of range"@,
        },
{
    let a = day_count(start) as i64;
    let b = day_count(end) as i64;
    let mut weeks: Vec<(i32, u32)> = Vec::new();
    if b < a {
        assert(weeks@.map_values(|x: (i32, u32)| (x.0 as int, x.1 as int)) =~= Seq::<(int, int)>::empty());
        return Ok(weeks);
    }
    let count = b - a + 1;
    let mut date = start;
    let mut m: i64 = 0;
    assert(weeks@.map_values(|x: (i32, u32)| (x.0 as int, x.1 as int)) =~= Seq::<(int, int)>::empty());
    while m < count
        invariant
            0 <= m <= count,
            count == days_in_range(start, end),
            m < count ==> nth_day(start, m as nat) == Some(date),
            date.wf(),
            day_weeks(start, m as nat) == Some(weeks@.map_values(|x: (i32, u32)| (x.0 as int, x.1 as int))),
        decreases count - m,
    {
        let w = iso_week(date);
        let ghost ws0 = weeks@.map_values(|x: (i32, u32)| (x.0 as int, x.1 as int));
        if !contains_week(&weeks, w) {
            weeks.push(w);
            assert(weeks@.map_values(|x: (i32, u32)| (x.0 as int, x.1 as int)) =~= ws0.push((w.0 as int, w.1 as int)));
        }
        assert(day_weeks(start, (m + 1) as nat) == Some(weeks@.map_values(|x: (i32, u32)| (x.0 as int, x.1 as int))));
        if m + 1 < count {
            match add_days(date, 1) {
                Some(next) => {
                    date = next;
                },
                None => {
                    proof {
                        lemma_day_weeks_none(start, (m + 1) as nat, count as nat);
                    }
                    return Err(owned("date out of range"));
                },
            }
        }
        m += 1;
    }
    Ok(weeks)
}

/// Once a day cannot be represented, the weeks of any longer range are unknown.
proof fn lemma_day_weeks_none(start: Date, k: nat, count: nat)
    requires
        k < count,
        nth_day(start, k) is None,
    ensures
        day_weeks(start, count) is None,
    decreases count - k,
{
    if k + 1 < count {
        assert(nth_day(start, k + 1) is None);
        lemma_day_weeks_none(start, k + 1, count);
    } else {
        assert(count - 1 == k);
    }
}

/// `d` lies between `start` and `end`, both included.
pub open spec fn within(d: Date, start: Date, end: Date) -> bool {
    !d.lt(start) && !end.lt(d)
}

/// Selecting a period's entries keeps exactly the entries dated from
/// `start` to `end`, both days included, and only those.
pub proof fn law_range_inclusive(s: Seq<IntervalV>, start: Date, end: Date, f: Seq<IntervalV>)
    requires
        f == s.filter(|iv: IntervalV| within(iv.date, start, end)),
    ensures
        forall|k: int| 0 <= k < f.len() ==> s.contains(#[trigger] f[k]) && !f[k].date.lt(start) && !end.lt(f[k].date),
        forall|j: int| 0 <= j < s.len() && !s[j].date.lt(start) && !end.lt(s[j].date) ==> f.contains(#[trigger] s[j]),
{
    let pred = |iv: IntervalV| within(iv.date, start, end);
    assert forall|k: int| 0 <= k < f.len() implies s.contains(#[trigger] f[k]) && pred(f[k]) by {
        s.lemma_filter_pred(pred, k);
        assert(f.contains(f[k]));
        s.lemma_filter_contains_rev(pred, f[k]);
    }
    assert forall|j: int| 0 <= j < s.len() && !s[j].date.lt(start) && !end.lt(s[j].date) implies f.contains(#[trigger] s[j]) by {
        s.lemma_filter_contains(pred, j);
    }
}

/// The entries dated from `start` to `end`, in order.
pub fn entries_in_range(v: &Vec<Interval>, start: Date, end: Date) -> (r: Vec<Interval>)
    ensures
        ivs(r@) == ivs(v@).filter(|iv: IntervalV| within(iv.date, start, end)),
        forall|k: int| 0 <= k < r@.len() ==> !(#[trigger] r@[k]).date.lt(start) && !end.lt(r@[k].date),
        forall|j: int| 0 <= j < v@.len() && !(#[trigger] v@[j]).date.lt(start) && !end.lt(v@[j].date)
            ==> ivs(r@).contains(v@[j]@),
{

    let ghost pred = |iv: IntervalV| within(iv.date, start, end);
    let mut r: Vec<Interval> = Vec::new();
    let mut i: usize = 0;
    assert(ivs(v@).take(0).filter(pred) =~= Seq::<IntervalV>::empty());
    while i < v.len()
        invariant
            i <= v.len(),
            pred == (|iv: IntervalV| within(iv.date, start, end)),
            ivs(r@) == ivs(v@).take(i as int).filter(pred),
        decreases v.len() - i,
    {
        let ghost r0 = ivs(r@);
        assert(ivs(v@).take(i + 1) =~= ivs(v@).take(i as int).push(v@[i as int]@));
        proof {
            ivs(v@).take(i as int).lemma_filter_push(v@[i as int]@, pred);
        }
        if !v[i].date.before(&start) && !end.before(&v[i].date) {
            r.push(v[i].copy());
            assert(ivs(r@) =~= r0.push(v@[i as int]@));
        }
        i += 1;
    }
    assert(ivs(v@).take(v.len() as int) =~= ivs(v@));
    proof {
        law_range_inclusive(ivs(v@), start, end, ivs(r@));
    }
    assert forall|k: int| 0 <= k < r@.len() implies !(#[trigger] r@[k]).date.lt(start) && !end.lt(r@[k].date) by {
        assert(ivs(r@)[k] == r@[k]@);
    }
    assert forall|j: int| 0 <= j < v@.len() && !(#[trigger] v@[j]).date.lt(start) && !end.lt(v@[j].date)
        implies ivs(r@).contains(v@[j]@) by {
        assert(ivs(v@)[j] == v@[j]@);
    }
    r
}

// ---------------------------------------------------------------------------
// Appending
// ---------------------------------------------------------------------------

/// The text appended to a week file for a new entry: its line and `\n`.
pub fn entry_line(iv: &Interval) -> (r: String)
    ensures
        r@ == line_text(iv@) + seq!['\n'],
{
    let mut v = chars_of(iv.serialize().as_str());
    v.push('\n');
    string_of(&v)
}

/// Scanning a run without line feeds extends the current line.
pub proof fn lemma_lines_scan_run(p: Seq<char>, x: Seq<char>)
    requires
        crate::round_trip::no_nl(x),
    ensures
        lines_scan(p + x) == (lines_scan(p).0, lines_scan(p).1 + x),
    decreases x.len(),
{
    if x.len() == 0 {
        assert(p + x =~= p);
        assert(lines_scan(p).1 + x =~= lines_scan(p).1);
    } else {
        let x1 = x.drop_last();
        assert forall|i: int| 0 <= i < x1.len() implies #[trigger] x1[i] != '\n' by {
            assert(x1[i] == x[i]);
        }
        lemma_lines_scan_run(p, x1);
        assert((p + x).drop_last() =~= p + x1);
        assert((p + x).last() == x.last());
        assert(x[x.len() - 1] != '\n');
        assert(x1.push(x.last()) =~= x);
        assert(lines_scan(p).1 + x1.push(x.last()) =~= lines_scan(p).1 + x);
    }
}

/// Appending the line of an entry to the text of a week file that is empty
/// or ends with a line feed, and reading the file back, gives the entries
/// read before followed by that entry. This holds for every entry the format
/// holds whose year has four digits and whose description has no line feed
/// and no white space at either end.
#[verifier::spinoff_prover]
pub proof fn law_append_read_back(content: Seq<char>, iv: IntervalV)
    requires
        iv.wf(),
        0 <= iv.date.year <= 9999,
        trim(iv.description) == iv.description,
        crate::round_trip::no_nl(iv.description),
        content.len() == 0 || content.last() == '\n',
        parse_lines(lines(content)) is Some,
    ensures
        parse_lines(lines(content + line_text(iv) + seq!['\n'])) == Some(
            parse_lines(lines(content)).unwrap().push(iv),
        ),
{
    let l = line_text(iv);
    crate::round_trip::lemma_line_shape(iv);
    crate::round_trip::law_line_round_trip(iv);
    if content.len() > 0 {
        assert(content.drop_last().push(content.last()) =~= content);
    }
    assert(lines_scan(content).1 =~= Seq::<char>::empty());
    lemma_lines_scan_run(content, l);
    let t = content + l;
    assert((t + seq!['\n']).drop_last() =~= t);
    assert(lines_scan(t).1 =~= l);
    assert(strip_cr(l) == l);
    let all = content + l + seq!['\n'];
    assert(lines(all) =~= lines(content).push(l));
    assert(lines(content).push(l).drop_last() =~= lines(content));
    assert(!skipped(l));
}

} // verus!
