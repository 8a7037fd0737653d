//! What reading a week file gives back after the library rewrites it:
//! closing the running entry, removing it, or moving the last end back.
use vstd::prelude::*;

use crate::calendar::{lemma_digits_value_bound, Time};
use crate::datafile::{
    closed_at, closed_entry, file_text, has_closed, has_open, last_where, lemma_lines_scan_run,
    lines, lines_scan, lines_step, open_entry, parse_lines, skipped, strip_cr,
};
use crate::interval::{line_text, parse_line, valid_energy, IntervalV};
use crate::parse::join;
use crate::round_trip::{law_line_round_trip, lemma_line_shape, no_nl};
use crate::text::{
    is_ws, lemma_trim_bounds, lemma_trim_end_shape, lemma_trim_noop, lemma_trim_start_shape,
    split_once, splitn3, trim, trim_end, trim_start,
};

verus! {

// ---------------------------------------------------------------------------
// Line feeds
// ---------------------------------------------------------------------------

proof fn lemma_no_nl_subrange(s: Seq<char>, a: int, b: int)
    requires
        no_nl(s),
        0 <= a <= b <= s.len(),
    ensures
        no_nl(s.subrange(a, b)),
{
    assert forall|i: int| 0 <= i < s.subrange(a, b).len() implies #[trigger] s.subrange(a, b)[i] != '\n' by {
        assert(s.subrange(a, b)[i] == s[a + i]);
    }
}

proof fn lemma_no_nl_trim(s: Seq<char>)
    requires
        no_nl(s),
    ensures
        no_nl(trim(s)),
{
    lemma_trim_start_shape(s);
    let t = trim_start(s);
    lemma_no_nl_subrange(s, s.len() - t.len(), s.len() as int);
    lemma_trim_end_shape(t);
    lemma_no_nl_subrange(t, 0, trim_end(t).len() as int);
}

proof fn lemma_no_nl_split(s: Seq<char>, p: Seq<char>)
    requires
        no_nl(s),
    ensures
        split_once(s, p) matches Some((a, b)) ==> no_nl(a) && no_nl(b),
{
    crate::text::lemma_find_from_bounds(s, p, 0);
    if let Some(i) = crate::text::find(s, p) {
        lemma_no_nl_subrange(s, 0, i);
        lemma_no_nl_subrange(s, i + p.len(), s.len() as int);
    }
}

/// What an entry read from a line without line feeds holds: a four-digit
/// year and a trimmed description without line feeds.
proof fn lemma_parsed_shape(s: Seq<char>)
    requires
        no_nl(s),
        parse_line(s) is Some,
    ensures
        ({
            let iv = parse_line(s).unwrap();
            &&& 0 <= iv.date.year <= 9999
            &&& trim(iv.description) == iv.description
            &&& no_nl(iv.description)
            &&& iv.wf()
        }),
{
    let iv = parse_line(s).unwrap();
    crate::interval::lemma_parsed_wf(s);
    let l = trim(s);
    lemma_no_nl_trim(s);
    let p = crate::interval::pipe_sep();
    let parts = splitn3(l, p);
    lemma_no_nl_split(l, p);
    if let Some((a, rest)) = split_once(l, p) {
        lemma_no_nl_split(rest, p);
    }
    if parts.len() > 2 {
        assert(no_nl(parts[2]));
        lemma_no_nl_trim(parts[2]);
        lemma_trim_bounds(parts[2]);
        lemma_trim_noop(trim(parts[2]));
    } else {
        assert(trim(Seq::<char>::empty()) =~= Seq::<char>::empty());
    }
    // The year is four digits.
    let seg = trim(parts[0]);
    let ds = match split_once(seg, crate::interval::dash_sep()) {
        Some((a0, _)) => trim(a0),
        None => trim(crate::text::strip_suffix(seg, crate::interval::dash_end()).unwrap_or(seg)),
    };
    let w = crate::text::words(ds);
    if w.len() == 2 {
        let d = w[0];
        if d.len() == 10 && crate::calendar::digits_at(d, 0, 4) {
            lemma_digits_value_bound(d.subrange(0, 4));
            assert(crate::calendar::pow10(4) == 10000) by {
                reveal_with_fuel(crate::calendar::pow10, 5);
            }
        }
    }
}

// ---------------------------------------------------------------------------
// Lines of a rewritten file
// ---------------------------------------------------------------------------

/// No line of a text holds a line feed.
pub proof fn lemma_lines_no_nl(s: Seq<char>)
    ensures
        forall|i: int| 0 <= i < lines(s).len() ==> no_nl(#[trigger] lines(s)[i]),
        no_nl(lines_scan(s).1),
        forall|i: int| 0 <= i < lines_scan(s).0.len() ==> no_nl(#[trigger] lines_scan(s).0[i]),
    decreases s.len(),
{
    if s.len() > 0 {
        lemma_lines_no_nl(s.drop_last());
        let st = lines_scan(s.drop_last());
        if s.last() == '\n' {
            let x = strip_cr(st.1);
            assert(no_nl(x)) by {
                if st.1.len() > 0 && st.1.last() == '\r' {
                    lemma_no_nl_subrange(st.1, 0, st.1.len() - 1);
                    assert(st.1.drop_last() =~= st.1.subrange(0, st.1.len() - 1));
                }
            }
            assert forall|i: int| 0 <= i < st.0.push(x).len() implies no_nl(#[trigger] st.0.push(x)[i]) by {
                if i < st.0.len() {
                    assert(st.0.push(x)[i] == st.0[i]);
                }
            }
        } else {
            assert forall|i: int| 0 <= i < st.1.push(s.last()).len() implies #[trigger] st.1.push(s.last())[i] != '\n' by {
                if i < st.1.len() {
                    assert(st.1.push(s.last())[i] == st.1[i]);
                }
            }
        }
    }
    let st = lines_scan(s);
    assert forall|i: int| 0 <= i < lines(s).len() implies no_nl(#[trigger] lines(s)[i]) by {
        if st.1.len() > 0 && i == st.0.len() {
            assert(lines(s)[i] == st.1);
        } else {
            assert(lines(s)[i] == st.0[i]);
        }
    }
}

/// Reading the text written for some lines gives those lines back, each with
/// a trailing carriage return removed.
pub proof fn lemma_file_text_lines(ls: Seq<Seq<char>>)
    requires
        ls.len() > 0,
        forall|i: int| 0 <= i < ls.len() ==> no_nl(#[trigger] ls[i]),
    ensures
        lines_scan(file_text(ls)) == (ls.map_values(|l: Seq<char>| strip_cr(l)), Seq::<char>::empty()),
        lines(file_text(ls)) == ls.map_values(|l: Seq<char>| strip_cr(l)),
    decreases ls.len(),
{
    let x = ls.last();
    assert(no_nl(x)) by {
        assert(x == ls[ls.len() - 1]);
    }
    if ls.len() == 1 {
        let t = x + seq!['\n'];
        assert(file_text(ls) =~= t);
        lemma_lines_scan_run(Seq::<char>::empty(), x);
        assert(Seq::<char>::empty() + x =~= x);
        assert(t.drop_last() =~= x);
        assert(lines_scan(Seq::<char>::empty()).1 + x =~= x);
        assert(ls.map_values(|l: Seq<char>| strip_cr(l)) =~= seq![strip_cr(x)]);
        assert(Seq::<Seq<char>>::empty().push(strip_cr(x)) =~= seq![strip_cr(x)]);
    } else {
        let front = ls.drop_last();
        assert forall|i: int| 0 <= i < front.len() implies no_nl(#[trigger] front[i]) by {
            assert(front[i] == ls[i]);
        }
        lemma_file_text_lines(front);
        let p = file_text(front);
        assert(file_text(ls) =~= p + x + seq!['\n']);
        lemma_lines_scan_run(p, x);
        assert((p + x + seq!['\n']).drop_last() =~= p + x);
        assert(lines_scan(p).1 + x =~= x);
        assert(ls.map_values(|l: Seq<char>| strip_cr(l)) =~= front.map_values(|l: Seq<char>| strip_cr(l)).push(strip_cr(x)));
    }
}

// ---------------------------------------------------------------------------
// Carriage returns
// ---------------------------------------------------------------------------

proof fn lemma_trim_start_drop_ws(s: Seq<char>)
    requires
        s.len() > 0,
        is_ws(s.last()),
    ensures
        trim_start(s.drop_last()) == (if trim_start(s).len() == 0 {
            Seq::<char>::empty()
        } else {
            trim_start(s).drop_last()
        }),
    decreases s.len(),
{
    if is_ws(s[0]) {
        if s.len() == 1 {
            assert(s.drop_last() =~= Seq::<char>::empty());
            assert(s.subrange(1, 1) =~= Seq::<char>::empty());
        } else {
            let t = s.subrange(1, s.len() as int);
            assert(t.last() == s.last());
            lemma_trim_start_drop_ws(t);
            assert(s.drop_last().subrange(1, s.drop_last().len() as int) =~= t.drop_last());
        }
    } else {
        assert(s.drop_last().len() > 0 ==> s.drop_last()[0] == s[0]);
        if s.len() == 1 {
            assert(false);
        }
    }
}

/// A trailing white space character does not change the trim.
proof fn lemma_trim_drop_ws(s: Seq<char>)
    requires
        s.len() > 0,
        is_ws(s.last()),
    ensures
        trim(s.drop_last()) == trim(s),
{
    lemma_trim_start_drop_ws(s);
    let ts = trim_start(s);
    lemma_trim_start_shape(s);
    if ts.len() > 0 {
        assert(ts.last() == s.last());
    }
}

/// Removing a trailing carriage return changes neither whether a line is
/// skipped nor what it parses to.
proof fn lemma_strip_cr_same(l: Seq<char>)
    ensures
        trim(strip_cr(l)) == trim(l),
        skipped(strip_cr(l)) == skipped(l),
{
    if l.len() > 0 && l.last() == '\r' {
        assert(is_ws('\r'));
        lemma_trim_drop_ws(l);
    }
}

/// Lines with trailing carriage returns removed parse as before.
pub proof fn lemma_parse_lines_strip_cr(ls: Seq<Seq<char>>)
    ensures
        parse_lines(ls.map_values(|l: Seq<char>| strip_cr(l))) == parse_lines(ls),
    decreases ls.len(),
{
    if ls.len() > 0 {
        let m = ls.map_values(|l: Seq<char>| strip_cr(l));
        assert(m.drop_last() =~= ls.drop_last().map_values(|l: Seq<char>| strip_cr(l)));
        lemma_parse_lines_strip_cr(ls.drop_last());
        lemma_strip_cr_same(ls.last());
        assert(m.last() == strip_cr(ls.last()));
    }
}

// ---------------------------------------------------------------------------
// Entries of edited lines
// ---------------------------------------------------------------------------

/// The number of lines that are neither blank nor comments.
pub open spec fn count_entries(ls: Seq<Seq<char>>) -> nat
    decreases ls.len(),
{
    if ls.len() == 0 {
        0
    } else {
        count_entries(ls.drop_last()) + if skipped(ls.last()) {
            0nat
        } else {
            1nat
        }
    }
}

/// Each line that is neither blank nor a comment gives one entry.
proof fn lemma_parse_lines_len(ls: Seq<Seq<char>>)
    requires
        parse_lines(ls) is Some,
    ensures
        parse_lines(ls).unwrap().len() == count_entries(ls),
    decreases ls.len(),
{
    if ls.len() > 0 {
        lemma_parse_lines_len(ls.drop_last());
    }
}

proof fn lemma_count_take(ls: Seq<Seq<char>>, k: int)
    requires
        0 <= k < ls.len(),
        !skipped(ls[k]),
    ensures
        count_entries(ls.take(k)) < count_entries(ls),
    decreases ls.len(),
{
    if k == ls.len() - 1 {
        assert(ls.drop_last() =~= ls.take(k));
    } else {
        assert(ls.drop_last()[k] == ls[k]);
        lemma_count_take(ls.drop_last(), k);
        assert(ls.drop_last().take(k) =~= ls.take(k));
    }
}

/// Replacing an entry's line with the line of another entry replaces that
/// entry and nothing else.
pub proof fn lemma_parse_lines_update(ls: Seq<Seq<char>>, k: int, y: Seq<char>, iv: IntervalV)
    requires
        0 <= k < ls.len(),
        parse_lines(ls) is Some,
        !skipped(ls[k]),
        !skipped(y),
        parse_line(trim(y)) == Some(iv),
    ensures
        parse_lines(ls.update(k, y)) == Some(
            parse_lines(ls).unwrap().update(count_entries(ls.take(k)) as int, iv),
        ),
    decreases ls.len(),
{
    let u = ls.update(k, y);
    let front = ls.drop_last();
    lemma_parse_lines_len(front);
    if k == ls.len() - 1 {
        assert(u.drop_last() =~= front);
        assert(front =~= ls.take(k));
        assert(u.last() == y);
    } else {
        assert(u.drop_last() =~= front.update(k, y));
        assert(front[k] == ls[k]);
        lemma_parse_lines_update(front, k, y, iv);
        assert(front.take(k) =~= ls.take(k));
        lemma_count_take(front, k);
        assert(u.last() == ls.last());
    }
}

/// Removing an entry's line removes that entry and nothing else.
pub proof fn lemma_parse_lines_remove(ls: Seq<Seq<char>>, k: int)
    requires
        0 <= k < ls.len(),
        parse_lines(ls) is Some,
        !skipped(ls[k]),
    ensures
        parse_lines(ls.remove(k)) == Some(
            parse_lines(ls).unwrap().remove(count_entries(ls.take(k)) as int),
        ),
    decreases ls.len(),
{
    let u = ls.remove(k);
    let front = ls.drop_last();
    lemma_parse_lines_len(front);
    if k == ls.len() - 1 {
        assert(u =~= front);
        assert(front =~= ls.take(k));
        assert(parse_lines(ls).unwrap().remove(count_entries(front) as int) =~= parse_lines(front).unwrap());
    } else {
        assert(u.drop_last() =~= front.remove(k));
        assert(front[k] == ls[k]);
        lemma_parse_lines_remove(front, k);
        assert(front.take(k) =~= ls.take(k));
        lemma_count_take(front, k);
        assert(u.last() == ls.last());
        let es = parse_lines(front).unwrap();
        let j = count_entries(ls.take(k)) as int;
        if !skipped(ls.last()) {
            let v = parse_line(trim(ls.last())).unwrap();
            assert(es.push(v).remove(j) =~= es.remove(j).push(v));
        }
    }
}

// ---------------------------------------------------------------------------
// The laws
// ---------------------------------------------------------------------------

proof fn lemma_last_where(ls: Seq<Seq<char>>, p: spec_fn(Seq<char>) -> bool)
    ensures
        last_where(ls, p) matches Some(k) ==> 0 <= k < ls.len() && p(ls[k]),
    decreases ls.len(),
{
    if ls.len() > 0 && !p(ls.last()) {
        lemma_last_where(ls.drop_last(), p);
        if let Some(k) = last_where(ls.drop_last(), p) {
            assert(ls.drop_last()[k] == ls[k]);
        }
    }
}

/// The line an entry read from a file is written back as is read again as
/// that entry, and is neither blank nor a comment.
proof fn lemma_rewritten_line(old: Seq<char>, iv: IntervalV)
    requires
        no_nl(old),
        parse_line(trim(old)) is Some,
        iv.wf(),
        iv.date == parse_line(trim(old)).unwrap().date,
        iv.description == parse_line(trim(old)).unwrap().description,
    ensures
        parse_line(trim(line_text(iv))) == Some(iv),
        !skipped(line_text(iv)),
        no_nl(line_text(iv)),
{
    lemma_no_nl_trim(old);
    lemma_parsed_shape(trim(old));
    law_line_round_trip(iv);
    lemma_line_shape(iv);
}

/// Rewriting one entry's line with the line of `iv`, and reading the file
/// back, gives the entries read before with that one replaced by `iv`.
proof fn lemma_replace_read_back(ls: Seq<Seq<char>>, k: int, iv: IntervalV)
    requires
        0 <= k < ls.len(),
        forall|i: int| 0 <= i < ls.len() ==> no_nl(#[trigger] ls[i]),
        parse_lines(ls) is Some,
        !skipped(ls[k]),
        parse_line(trim(ls[k])) is Some,
        iv.wf(),
        iv.date == parse_line(trim(ls[k])).unwrap().date,
        iv.description == parse_line(trim(ls[k])).unwrap().description,
    ensures
        parse_lines(lines(file_text(ls.update(k, line_text(iv))))) == Some(
            parse_lines(ls).unwrap().update(count_entries(ls.take(k)) as int, iv),
        ),
{
    let y = line_text(iv);
    lemma_rewritten_line(ls[k], iv);
    lemma_parse_lines_update(ls, k, y, iv);
    let u = ls.update(k, y);
    assert forall|i: int| 0 <= i < u.len() implies no_nl(#[trigger] u[i]) by {
        if i != k {
            assert(u[i] == ls[i]);
        }
    }
    lemma_file_text_lines(u);
    lemma_parse_lines_strip_cr(u);
}

/// Closing the running entry of a week file at `end` (with the energy level
/// `energy`, if given) and reading the file back gives the entries read
/// before, with that entry closed and nothing else changed.
pub proof fn law_close_read_back(content: Seq<char>, end: Time, energy: Option<u8>)
    requires
        parse_lines(lines(content)) is Some,
        last_where(lines(content), has_open()) is Some,
        end.wf(),
        valid_energy(energy),
    ensures
        ({
            let ls = lines(content);
            let k = last_where(ls, has_open()).unwrap();
            let closed = closed_at(open_entry(ls[k]).unwrap(), end, energy);
            parse_lines(lines(file_text(ls.update(k, line_text(closed))))) == Some(
                parse_lines(ls).unwrap().update(count_entries(ls.take(k)) as int, closed),
            )
        }),
{
    let ls = lines(content);
    let k = last_where(ls, has_open()).unwrap();
    lemma_last_where(ls, has_open());
    lemma_lines_no_nl(content);
    let open = open_entry(ls[k]).unwrap();
    lemma_no_nl_trim(ls[k]);
    lemma_parsed_shape(trim(ls[k]));
    lemma_replace_read_back(ls, k, closed_at(open, end, energy));
}

/// Moving the end of the last closed entry of a week file back to `new_end`
/// (not before its start) and reading the file back gives the entries read
/// before, with only that end changed.
pub proof fn law_trim_read_back(content: Seq<char>, new_end: Time)
    requires
        parse_lines(lines(content)) is Some,
        last_where(lines(content), has_closed()) is Some,
        new_end.wf(),
        new_end.mins() >= closed_entry(lines(content)[last_where(lines(content), has_closed()).unwrap()]).unwrap().start.mins(),
    ensures
        ({
            let ls = lines(content);
            let k = last_where(ls, has_closed()).unwrap();
            let trimmed = IntervalV { end: Some(new_end), ..closed_entry(ls[k]).unwrap() };
            parse_lines(lines(file_text(ls.update(k, line_text(trimmed))))) == Some(
                parse_lines(ls).unwrap().update(count_entries(ls.take(k)) as int, trimmed),
            )
        }),
{
    let ls = lines(content);
    let k = last_where(ls, has_closed()).unwrap();
    lemma_last_where(ls, has_closed());
    lemma_lines_no_nl(content);
    let old = closed_entry(ls[k]).unwrap();
    lemma_no_nl_trim(ls[k]);
    lemma_parsed_shape(trim(ls[k]));
    lemma_replace_read_back(ls, k, IntervalV { end: Some(new_end), ..old });
}

/// Removing the running entry of a week file and reading the file back
/// gives the entries read before without that one.
pub proof fn law_remove_read_back(content: Seq<char>)
    requires
        parse_lines(lines(content)) is Some,
        last_where(lines(content), has_open()) is Some,
    ensures
        ({
            let ls = lines(content);
            let k = last_where(ls, has_open()).unwrap();
            let text = if ls.len() == 1 {
                Seq::<char>::empty()
            } else {
                file_text(ls.remove(k))
            };
            parse_lines(lines(text)) == Some(
                parse_lines(ls).unwrap().remove(count_entries(ls.take(k)) as int),
            )
        }),
{
    let ls = lines(content);
    let k = last_where(ls, has_open()).unwrap();
    lemma_last_where(ls, has_open());
    lemma_lines_no_nl(content);
    lemma_parse_lines_remove(ls, k);
    if ls.len() == 1 {
        lemma_parse_lines_len(ls);
        assert(lines(Seq::<char>::empty()) =~= Seq::<Seq<char>>::empty());
        assert(parse_lines(ls).unwrap().remove(count_entries(ls.take(k)) as int) =~= Seq::<IntervalV>::empty());
    } else {
        let u = ls.remove(k);
        assert forall|i: int| 0 <= i < u.len() implies no_nl(#[trigger] u[i]) by {
            if i < k {
                assert(u[i] == ls[i]);
            } else {
                assert(u[i] == ls[i + 1]);
            }
        }
        lemma_file_text_lines(u);
        lemma_parse_lines_strip_cr(u);
    }
}

} // verus!
