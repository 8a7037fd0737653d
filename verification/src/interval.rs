//! One time entry: `<date> <start> - <end> | <metadata> | <description>`.
use vstd::prelude::*;

use crate::calendar::{
    chrono_date_reason, chrono_time_reason, date_refusal, refusal_text, time_refusal, date_text, parse_date, parse_date_chars, parse_time, parse_time_chars, push_date, push_time,
    time_text, Date, Time,
};
use crate::text::{
    append_chars, append_str, chars_of, dec, dec_chars, parse_u8, parse_u8_chars, slice_of,
    split_once, split_once_chars, splitn3, splitn3_chars, strip_suffix, strip_suffix_chars,
    string_of, trim, trim_chars, trim_end_char, trim_end_char_chars, words, words_chars, owned,
};

verus! {

/// A time entry.
#[derive(Debug, Clone, PartialEq)]
pub struct Interval {
    pub date: Date,
    pub start: Time,
    /// `None` while the timer is running.
    pub end: Option<Time>,
    pub project: String,
    pub tags: Vec<String>,
    /// Energy level, 1 to 5.
    pub energy: Option<u8>,
    pub description: String,
}

/// The mathematical content of a time entry.
pub struct IntervalV {
    pub date: Date,
    pub start: Time,
    pub end: Option<Time>,
    pub project: Seq<char>,
    pub tags: Seq<Seq<char>>,
    pub energy: Option<u8>,
    pub description: Seq<char>,
}

/// The contents of a sequence of strings.
pub open spec fn strs(v: Seq<String>) -> Seq<Seq<char>> {
    v.map_values(|s: String| s@)
}

/// The contents of a sequence of character vectors.
pub open spec fn vv(v: Seq<Vec<char>>) -> Seq<Seq<char>> {
    v.map_values(|s: Vec<char>| s@)
}

impl View for Interval {
    type V = IntervalV;

    open spec fn view(&self) -> IntervalV {
        IntervalV {
            date: self.date,
            start: self.start,
            end: self.end,
            project: self.project@,
            tags: strs(self.tags@),
            energy: self.energy,
            description: self.description@,
        }
    }
}

/// A character allowed in project and tag names.
pub open spec fn name_char(c: char) -> bool {
    ('a' <= c && c <= 'z') || ('0' <= c && c <= '9') || c == '-'
}

/// A project or tag name: non-empty, lowercase letters, digits and hyphens.
pub open spec fn valid_name(n: Seq<char>) -> bool {
    n.len() > 0 && forall|i: int| 0 <= i < n.len() ==> name_char(#[trigger] n[i])
}

/// A valid energy level.
pub open spec fn valid_energy(e: Option<u8>) -> bool {
    e matches Some(v) ==> 1 <= v <= 5
}

impl IntervalV {
    /// The entry as the file format can hold it: valid names, energy, times.
    pub open spec fn wf(self) -> bool {
        &&& self.date.wf()
        &&& self.start.wf()
        &&& (self.end matches Some(e) ==> e.wf())
        &&& valid_name(self.project)
        &&& forall|i: int| 0 <= i < self.tags.len() ==> valid_name(#[trigger] self.tags[i])
        &&& valid_energy(self.energy)
    }

    /// Length in minutes; a closed entry whose end is before its start ends on
    /// the next day.
    pub open spec fn duration(self) -> Option<int> {
        match self.end {
            Some(e) => Some(minutes_between(self.start, e)),
            None => None,
        }
    }
}

/// Minutes from `a` to `b`, where `b` before `a` means `b` on the next day.
pub open spec fn minutes_between(a: Time, b: Time) -> int {
    if b.mins() < a.mins() {
        b.mins() - a.mins() + 1440
    } else {
        b.mins() - a.mins()
    }
}

// ---------------------------------------------------------------------------
// Separators
// ---------------------------------------------------------------------------

/// `" | "`.
pub open spec fn pipe_sep() -> Seq<char> {
    seq![' ', '|', ' ']
}

/// `" - "`.
pub open spec fn dash_sep() -> Seq<char> {
    seq![' ', '-', ' ']
}

/// `" -"`.
pub open spec fn dash_end() -> Seq<char> {
    seq![' ', '-']
}

// ---------------------------------------------------------------------------
// Parsing, as a specification
// ---------------------------------------------------------------------------

/// `YYYY-MM-DD HH:MM` with any white space between the two words.
pub open spec fn parse_date_time(s: Seq<char>) -> Option<(Date, Time)> {
    let w = words(s);
    if w.len() != 2 {
        None
    } else {
        match (parse_date(w[0]), parse_time(w[1])) {
            (Some(d), Some(t)) => Some((d, t)),
            _ => None,
        }
    }
}

/// The time segment: `YYYY-MM-DD HH:MM - HH:MM`, or an open entry ending in `-`.
pub open spec fn parse_time_segment(s: Seq<char>) -> Option<(Date, Time, Option<Time>)> {
    match split_once(s, dash_sep()) {
        None => match strip_suffix(s, dash_end()) {
            None => None,
            Some(sp) => match parse_date_time(trim(sp)) {
                Some((d, t)) => Some((d, t, None)),
                None => None,
            },
        },
        Some((a, b)) => match parse_date_time(trim(a)) {
            None => None,
            Some((d, t)) => if trim(b).len() == 0 {
                Some((d, t, None))
            } else {
                match parse_time(trim(b)) {
                    Some(e) => Some((d, t, Some(e))),
                    None => None,
                }
            },
        },
    }
}

/// Project, tags and energy read so far from the metadata tokens.
pub struct MetaV {
    pub project: Option<Seq<char>>,
    pub tags: Seq<Seq<char>>,
    pub energy: Option<u8>,
}

/// The energy level written after `!`, if it is one and none was given before.
pub open spec fn energy_level(e: Seq<char>) -> Option<u8> {
    match parse_u8(e) {
        Some(l) => if 1 <= l <= 5 {
            Some(l)
        } else {
            None
        },
        None => None,
    }
}

/// Reads one metadata token; `None` is a rejected token.
pub open spec fn meta_step(acc: Option<MetaV>, tok: Seq<char>) -> Option<MetaV> {
    match acc {
        None => None,
        Some(m) => if tok.len() > 0 && tok[0] == '@' {
            if valid_name(tok.drop_first()) && m.project is None {
                Some(MetaV { project: Some(tok.drop_first()), ..m })
            } else {
                None
            }
        } else if tok.len() > 0 && tok[0] == '#' {
            if valid_name(tok.drop_first()) {
                Some(MetaV { tags: m.tags.push(tok.drop_first()), ..m })
            } else {
                None
            }
        } else if tok.len() > 0 && tok[0] == '!' {
            if m.energy is None && energy_level(tok.drop_first()) is Some {
                Some(MetaV { energy: energy_level(tok.drop_first()), ..m })
            } else {
                None
            }
        } else {
            None
        },
    }
}

/// Reads the metadata tokens from the left.
pub open spec fn meta_scan(toks: Seq<Seq<char>>) -> Option<MetaV>
    decreases toks.len(),
{
    if toks.len() == 0 {
        Some(MetaV { project: None, tags: Seq::empty(), energy: None })
    } else {
        meta_step(meta_scan(toks.drop_last()), toks.last())
    }
}

/// The message for a rejected project or tag name.
pub open spec fn name_error(n: Seq<char>, kind: Seq<char>) -> Seq<char> {
    if n.len() == 0 {
        "empty "@ + kind + " name"@
    } else {
        "invalid "@ + kind + " name '"@ + n + "' (use lowercase letters, numbers, and hyphens)"@
    }
}

/// The message for a rejected energy level `!e`; `seen` tells whether one
/// was given before.
pub open spec fn energy_error(e: Seq<char>, seen: bool) -> Seq<char> {
    if seen {
        "multiple energy levels not allowed"@
    } else {
        match parse_u8(e) {
            None => "invalid energy level '!"@ + e + "' (use 1-5)"@,
            Some(l) => "energy level !"@ + dec(l as nat) + " out of range (use 1-5)"@,
        }
    }
}

/// The message for a metadata token that `meta_step` rejects after `m`.
pub open spec fn token_error(m: MetaV, tok: Seq<char>) -> Seq<char> {
    if tok.len() > 0 && tok[0] == '@' {
        if !valid_name(tok.drop_first()) {
            name_error(tok.drop_first(), "project"@)
        } else {
            "multiple @projects not allowed"@
        }
    } else if tok.len() > 0 && tok[0] == '#' {
        name_error(tok.drop_first(), "tag"@)
    } else if tok.len() > 0 && tok[0] == '!' {
        energy_error(tok.drop_first(), m.energy is Some)
    } else {
        "unexpected token in metadata: '"@ + tok + "'"@
    }
}

/// The metadata segment: `@project #tag... !N`, exactly one project.
pub open spec fn parse_meta(s: Seq<char>) -> Option<(Seq<char>, Seq<Seq<char>>, Option<u8>)> {
    match meta_scan(words(s)) {
        Some(m) => match m.project {
            Some(p) => Some((p, m.tags, m.energy)),
            None => None,
        },
        None => None,
    }
}

/// The message when `parse_date_time` refuses `s`.
pub open spec fn date_time_error(s: Seq<char>) -> Seq<char> {
    let w = words(s);
    if w.len() != 2 {
        "expected 'YYYY-MM-DD HH:MM', got '"@ + s + "'"@
    } else if parse_date(w[0]) is None {
        refusal_text("invalid date "@, w[0], chrono_date_reason(w[0]))
    } else {
        refusal_text("invalid time "@, w[1], chrono_time_reason(w[1]))
    }
}

/// The message when `parse_time_segment` refuses `s`.
pub open spec fn time_segment_error(s: Seq<char>) -> Seq<char> {
    match split_once(s, dash_sep()) {
        None => match strip_suffix(s, dash_end()) {
            None => "expected 'YYYY-MM-DD HH:MM - HH:MM' or an open interval ending in '-': "@ + s,
            Some(sp) => date_time_error(trim(sp)),
        },
        Some((a, b)) => if parse_date_time(trim(a)) is None {
            date_time_error(trim(a))
        } else {
            refusal_text("invalid end time "@, trim(b), chrono_time_reason(trim(b)))
        },
    }
}

/// The message for the first metadata token that is rejected.
pub open spec fn meta_scan_error(toks: Seq<Seq<char>>) -> Seq<char>
    decreases toks.len(),
{
    if toks.len() == 0 {
        Seq::empty()
    } else {
        match meta_scan(toks.drop_last()) {
            None => meta_scan_error(toks.drop_last()),
            Some(m) => token_error(m, toks.last()),
        }
    }
}

/// The message when `parse_meta` refuses `s`.
pub open spec fn meta_error(s: Seq<char>) -> Seq<char> {
    match meta_scan(words(s)) {
        None => meta_scan_error(words(s)),
        Some(_) => "missing @project in metadata"@,
    }
}

/// The message when `parse_line` refuses `s`.
pub open spec fn line_error(s: Seq<char>) -> Seq<char> {
    let l = trim(s);
    let parts = splitn3(l, pipe_sep());
    if l.len() == 0 {
        "empty line"@
    } else if parts.len() < 2 {
        "expected at least 2 pipe-separated segments: "@ + l
    } else if parse_time_segment(trim(parts[0])) is None {
        time_segment_error(trim(parts[0]))
    } else {
        meta_error(trim(trim_end_char(trim(parts[1]), '|')))
    }
}

/// A whole line of the data format, if it is one.
pub open spec fn parse_line(s: Seq<char>) -> Option<IntervalV> {
    let l = trim(s);
    let parts = splitn3(l, pipe_sep());
    if l.len() == 0 || parts.len() < 2 {
        None
    } else {
        let desc = if parts.len() > 2 {
            trim(parts[2])
        } else {
            Seq::empty()
        };
        match parse_time_segment(trim(parts[0])) {
            None => None,
            Some((d, st, en)) => match parse_meta(trim(trim_end_char(trim(parts[1]), '|'))) {
                None => None,
                Some((p, tags, e)) => Some(
                    IntervalV {
                        date: d,
                        start: st,
                        end: en,
                        project: p,
                        tags: tags,
                        energy: e,
                        description: desc,
                    },
                ),
            },
        }
    }
}

// ---------------------------------------------------------------------------
// Serialization, as a specification
// ---------------------------------------------------------------------------

/// ` #tag` for each tag.
pub open spec fn tags_text(tags: Seq<Seq<char>>) -> Seq<char>
    decreases tags.len(),
{
    if tags.len() == 0 {
        Seq::empty()
    } else {
        tags_text(tags.drop_last()) + seq![' ', '#'] + tags.last()
    }
}

/// ` !N` when an energy level is set.
pub open spec fn energy_text(e: Option<u8>) -> Seq<char> {
    match e {
        Some(v) => seq![' ', '!'] + dec(v as nat),
        None => Seq::empty(),
    }
}

/// `@project #tag1 #tag2 !N`.
pub open spec fn meta_text(project: Seq<char>, tags: Seq<Seq<char>>, energy: Option<u8>) -> Seq<
    char,
> {
    seq!['@'] + project + tags_text(tags) + energy_text(energy)
}

/// The end time, or five spaces for a running entry.
pub open spec fn end_text(end: Option<Time>) -> Seq<char> {
    match end {
        Some(e) => time_text(e),
        None => seq![' ', ' ', ' ', ' ', ' '],
    }
}

/// The time segment as written.
pub open spec fn time_segment_text(iv: IntervalV) -> Seq<char> {
    date_text(iv.date) + seq![' '] + time_text(iv.start) + dash_sep() + end_text(iv.end)
}

/// The line that represents an entry.
pub open spec fn line_text(iv: IntervalV) -> Seq<char> {
    time_segment_text(iv) + pipe_sep() + meta_text(iv.project, iv.tags, iv.energy) + (
    if iv.description.len() == 0 {
        seq![' ', '|']
    } else {
        pipe_sep() + iv.description
    })
}

// ---------------------------------------------------------------------------
// Executable parsing
// ---------------------------------------------------------------------------

/// Builds `a` + `b` + `c`.
pub(crate) fn msg3(a: &str, b: &[char], c: &str) -> (r: String)
    ensures
        r@ == a@ + b@ + c@,
{
    let mut v: Vec<char> = Vec::new();
    append_str(&mut v, a);
    append_chars(&mut v, b);
    append_str(&mut v, c);
    string_of(&v)
}

/// Checks a project or tag name.
pub(crate) fn validate_name_chars(name: &[char], kind: &str) -> (r: Result<(), String>)
    ensures
        r is Ok <==> valid_name(name@),
        r matches Err(e) ==> e@ == (if name@.len() == 0 {
            "empty "@ + kind@ + " name"@
        } else {
            "invalid "@ + kind@ + " name '"@ + name@
                + "' (use lowercase letters, numbers, and hyphens)"@
        }),
{
    if name.len() == 0 {
        let k = chars_of(kind);
        return Err(msg3("empty ", &k, " name"));
    }
    let mut i: usize = 0;
    while i < name.len()
        invariant
            i <= name.len(),
            forall|j: int| 0 <= j < i ==> name_char(#[trigger] name@[j]),
        decreases name.len() - i,
    {
        let c = name[i];
        if !(('a' <= c && c <= 'z') || ('0' <= c && c <= '9') || c == '-') {
            let k = chars_of(kind);
            let mut v: Vec<char> = Vec::new();
            append_str(&mut v, "invalid ");
            append_chars(&mut v, &k);
            append_str(&mut v, " name '");
            append_chars(&mut v, name);
            append_str(&mut v, "' (use lowercase letters, numbers, and hyphens)");
            return Err(string_of(&v));
        }
        i += 1;
    }
    Ok(())
}

/// Checks a project or tag name: non-empty, and only lowercase ASCII letters,
/// digits and hyphens.
pub fn validate_name(name: &str, kind: &str) -> (r: Result<(), String>)
    ensures
        r is Ok <==> valid_name(name@),
        r matches Err(e) ==> e@ == (if name@.len() == 0 {
            "empty "@ + kind@ + " name"@
        } else {
            "invalid "@ + kind@ + " name '"@ + name@
                + "' (use lowercase letters, numbers, and hyphens)"@
        }),
{
    let n = chars_of(name);
    validate_name_chars(&n, kind)
}

/// Reads the energy level after `!`; `seen` tells whether one was read before.
pub(crate) fn energy_token(e: &[char], seen: bool) -> (r: Result<u8, String>)
    ensures
        r is Ok <==> !seen && energy_level(e@) is Some,
        r matches Ok(l) ==> energy_level(e@) == Some(l),
        r matches Err(m) ==> m@ == energy_error(e@, seen),
{
    if seen {
        return Err(owned("multiple energy levels not allowed"));
    }
    match parse_u8_chars(e) {
        None => Err(msg3("invalid energy level '!", e, "' (use 1-5)")),
        Some(level) => {
            if 1 <= level && level <= 5 {
                Ok(level)
            } else {
                let d = dec_chars(level as u64);
                Err(msg3("energy level !", &d, " out of range (use 1-5)"))
            }
        },
    }
}

/// Executable state while reading metadata tokens.
pub(crate) struct MetaAcc {
    pub project: Option<Vec<char>>,
    pub tags: Vec<Vec<char>>,
    pub energy: Option<u8>,
}

impl MetaAcc {
    pub(crate) open spec fn view(&self) -> MetaV {
        MetaV {
            project: match self.project {
                Some(p) => Some(p@),
                None => None,
            },
            tags: vv(self.tags@),
            energy: self.energy,
        }
    }
}

/// Reads one metadata token into `acc`.
pub(crate) fn meta_token(acc: &mut MetaAcc, tok: &[char]) -> (r: Result<(), String>)
    ensures
        r is Ok <==> meta_step(Some(old(acc).view()), tok@) is Some,
        r is Ok ==> meta_step(Some(old(acc).view()), tok@) == Some(final(acc).view()),
        r matches Err(m) ==> m@ == token_error(old(acc).view(), tok@),
{
    if tok.len() > 0 && tok[0] == '@' {
        let p = slice_of(tok, 1, tok.len());
        assert(p@ =~= tok@.drop_first());
        validate_name_chars(&p, "project")?;
        if acc.project.is_some() {
            return Err(owned("multiple @projects not allowed"));
        }
        acc.project = Some(p);
        Ok(())
    } else if tok.len() > 0 && tok[0] == '#' {
        let t = slice_of(tok, 1, tok.len());
        assert(t@ =~= tok@.drop_first());
        validate_name_chars(&t, "tag")?;
        let ghost old_tags = acc.tags@;
        acc.tags.push(t);
        assert(vv(acc.tags@) =~= vv(old_tags).push(t@));
        Ok(())
    } else if tok.len() > 0 && tok[0] == '!' {
        let e = slice_of(tok, 1, tok.len());
        assert(e@ =~= tok@.drop_first());
        let level = energy_token(&e, acc.energy.is_some())?;
        acc.energy = Some(level);
        Ok(())
    } else {
        Err(msg3("unexpected token in metadata: '", tok, "'"))
    }
}

/// Parses the metadata segment.
pub(crate) fn parse_meta_chars(s: &[char]) -> (r: Result<(Vec<char>, Vec<Vec<char>>, Option<u8>), String>)
    ensures
        r is Ok <==> parse_meta(s@) is Some,
        r matches Ok((p, t, e)) ==> parse_meta(s@) == Some((p@, vv(t@), e)),
        r matches Err(m) ==> m@ == meta_error(s@),
{
    let toks = words_chars(s);
    let ghost ws = words(s@);
    let mut acc = MetaAcc { project: None, tags: Vec::new(), energy: None };
    assert(acc.view().tags =~= Seq::<Seq<char>>::empty());
    let mut i: usize = 0;
    while i < toks.len()
        invariant
            toks@.len() == ws.len(),
            ws == words(s@),
            forall|k: int| 0 <= k < toks@.len() ==> #[trigger] toks@[k]@ == ws[k],
            i <= toks.len(),
            meta_scan(ws.take(i as int)) == Some(acc.view()),
        decreases toks.len() - i,
    {
        assert(ws.take(i + 1).drop_last() =~= ws.take(i as int));
        assert(ws.take(i + 1).last() == toks@[i as int]@);
        let res = meta_token(&mut acc, &toks[i]);
        if res.is_err() {
            assert(meta_scan(ws.take(i + 1)) is None);
            proof {
                lemma_meta_scan_stays_none(ws, i as int + 1);
                lemma_meta_scan_error_stays(ws, i as int + 1);
            }
            assert(ws.take(ws.len() as int) =~= ws);
            return Err(res.unwrap_err());
        }
        i += 1;
    }
    assert(ws.take(ws.len() as int) =~= ws);
    match acc.project {
        Some(p) => Ok((p, acc.tags, acc.energy)),
        None => Err(owned("missing @project in metadata")),
    }
}

/// Once a token is rejected, the message stays that of the first.
proof fn lemma_meta_scan_error_stays(ws: Seq<Seq<char>>, k: int)
    requires
        0 <= k <= ws.len(),
        meta_scan(ws.take(k)) is None,
    ensures
        meta_scan_error(ws) == meta_scan_error(ws.take(k)),
    decreases ws.len() - k,
{
    if k < ws.len() {
        assert(ws.take(k + 1).drop_last() =~= ws.take(k));
        lemma_meta_scan_error_stays(ws, k + 1);
    } else {
        assert(ws.take(k) =~= ws);
    }
}

/// Once a token is rejected, reading more tokens does not recover.
proof fn lemma_meta_scan_stays_none(ws: Seq<Seq<char>>, k: int)
    requires
        0 <= k <= ws.len(),
        meta_scan(ws.take(k)) is None,
    ensures
        meta_scan(ws) is None,
    decreases ws.len() - k,
{
    if k < ws.len() {
        assert(ws.take(k + 1).drop_last() =~= ws.take(k));
        lemma_meta_scan_stays_none(ws, k + 1);
    } else {
        assert(ws.take(k) =~= ws);
    }
}

/// Parses `YYYY-MM-DD HH:MM`.
fn parse_date_time_chars(s: &[char]) -> (r: Result<(Date, Time), String>)
    ensures
        r is Ok <==> parse_date_time(s@) is Some,
        r matches Ok(x) ==> parse_date_time(s@) == Some(x) && x.0.wf() && x.1.wf(),
        r matches Err(m) ==> m@ == date_time_error(s@),
{
    let w = words_chars(s);
    if w.len() != 2 {
        return Err(msg3("expected 'YYYY-MM-DD HH:MM', got '", s, "'"));
    }
    let d = match parse_date_chars(&w[0]) {
        Some(d) => d,
        None => return Err(date_refusal("invalid date ", &w[0])),
    };
    let t = match parse_time_chars(&w[1]) {
        Some(t) => t,
        None => return Err(time_refusal("invalid time ", &w[1])),
    };
    Ok((d, t))
}

/// Parses the time segment.
fn parse_time_segment_chars(s: &[char]) -> (r: Result<(Date, Time, Option<Time>), String>)
    ensures
        r is Ok <==> parse_time_segment(s@) is Some,
        r matches Ok(x) ==> parse_time_segment(s@) == Some(x) && x.0.wf() && x.1.wf() && (
        x.2 matches Some(e) ==> e.wf()),
        r matches Err(m) ==> m@ == time_segment_error(s@),
{
    let dash = vec![' ', '-', ' '];
    assert(dash@ =~= dash_sep());
    match split_once_chars(s, &dash) {
        None => {
            let dash_suffix = vec![' ', '-'];
            assert(dash_suffix@ =~= dash_end());
            match strip_suffix_chars(s, &dash_suffix) {
                None => {
                    proof {
                        reveal_strlit("");
                    }
                    Err(msg3(
                        "expected 'YYYY-MM-DD HH:MM - HH:MM' or an open interval ending in '-': ",
                        s,
                        "",
                    ))
                },
                Some(sp) => {
                    let spt = trim_chars(&sp);
                    match parse_date_time_chars(&spt) {
                        Ok((d, t)) => Ok((d, t, None)),
                        Err(e) => Err(e),
                    }
                },
            }
        },
        Some((a, b)) => {
            let at = trim_chars(&a);
            let bt = trim_chars(&b);
            let (d, t) = match parse_date_time_chars(&at) {
                Ok(x) => x,
                Err(e) => return Err(e),
            };
            if bt.len() == 0 {
                Ok((d, t, None))
            } else {
                match parse_time_chars(&bt) {
                    Some(e) => Ok((d, t, Some(e))),
                    None => Err(time_refusal("invalid end time ", &bt)),
                }
            }
        },
    }
}

/// Converts character vectors to strings.
pub(crate) fn strings_of(v: &Vec<Vec<char>>) -> (r: Vec<String>)
    ensures
        strs(r@) == vv(v@),
{
    let mut r: Vec<String> = Vec::new();
    let mut i: usize = 0;
    while i < v.len()
        invariant
            i <= v.len(),
            strs(r@) == vv(v@.take(i as int)),
        decreases v.len() - i,
    {
        let s = string_of(&v[i]);
        let ghost r0 = r@;
        r.push(s);
        assert(strs(r@) =~= strs(r0).push(s@));
        assert(vv(v@.take(i + 1)) =~= vv(v@.take(i as int)).push(v@[i as int]@));
        i += 1;
    }
    assert(v@.take(v.len() as int) =~= v@);
    r
}

impl Interval {
    /// A copy of the entry.
    pub fn copy(&self) -> (r: Interval)
        ensures
            r@ == self@,
    {
        Interval {
            date: self.date,
            start: self.start,
            end: self.end,
            project: self.project.clone(),
            tags: crate::config::copy_strings(&self.tags),
            energy: self.energy,
            description: self.description.clone(),
        }
    }

    /// The entry is still running.
    pub fn is_open(&self) -> (r: bool)
        ensures
            r == (self.end is None),
    {
        self.end.is_none()
    }

    /// Minutes from the start to the end; a closed entry whose end is before
    /// its start ends on the next day. `None` while running.
    pub fn duration(&self) -> (r: Option<i64>)
        requires
            self.start.wf(),
            self.end matches Some(e) ==> e.wf(),
        ensures
            r matches Some(m) ==> self@.duration() == Some(m as int),
            r is None ==> self@.duration() is None,
            r matches Some(m) ==> 0 <= m < 1440,
    {
        match self.end {
            Some(end) => Some(Self::between(self.start, end)),
            None => None,
        }
    }

    fn between(a: Time, b: Time) -> (r: i64)
        requires
            a.wf(),
            b.wf(),
        ensures
            r == minutes_between(a, b),
            0 <= r < 1440,
    {
        let diff = b.minutes() - a.minutes();
        if diff < 0 {
            diff + 1440
        } else {
            diff
        }
    }

    /// Minutes from the start to `now`, where `now` before the start means
    /// `now` on the next day.
    pub fn duration_until(&self, now: Time) -> (r: i64)
        requires
            self.start.wf(),
            now.wf(),
        ensures
            r == minutes_between(self.start, now),
            0 <= r < 1440,
    {
        Self::between(self.start, now)
    }

    /// The minutes a report made on `today` at `now` counts for this entry: a
    /// closed entry's length; a running entry only on its start date, up to
    /// `now`; nothing for a running entry from an earlier day.
    pub fn report_duration(&self, today: Date, now: Time) -> (r: Option<i64>)
        requires
            self.start.wf(),
            self.end matches Some(e) ==> e.wf(),
            now.wf(),
        ensures
            r == report_minutes(self@, today, now),
    {
        match self.duration() {
            Some(d) => Some(d),
            None => {
                if self.date == today {
                    Some(self.duration_until(now))
                } else {
                    None
                }
            },
        }
    }

    /// Parses one line of the data format.
    pub fn parse(line: &str) -> (r: Result<Interval, String>)
        ensures
            r is Ok <==> parse_line(line@) is Some,
            r matches Ok(iv) ==> parse_line(line@) == Some(iv@) && iv@.wf(),
            r matches Err(m) ==> m@ == line_error(line@),
    {
        let raw = chars_of(line);
        let l = trim_chars(&raw);
        if l.len() == 0 {
            return Err(owned("empty line"));
        }
        let pipe = vec![' ', '|', ' '];
        assert(pipe@ =~= pipe_sep());
        let parts = splitn3_chars(&l, &pipe);
        if parts.len() < 2 {
            proof {
                reveal_strlit("");
            }
            return Err(msg3("expected at least 2 pipe-separated segments: ", &l, ""));
        }
        let time_part = trim_chars(&parts[0]);
        let m1 = trim_chars(&parts[1]);
        let m2 = trim_end_char_chars(&m1, '|');
        let meta_part = trim_chars(&m2);
        let description = if parts.len() > 2 {
            let d = trim_chars(&parts[2]);
            string_of(&d)
        } else {
            String::new()
        };
        let (date, start, end) = match parse_time_segment_chars(&time_part) {
            Ok(x) => x,
            Err(e) => return Err(e),
        };
        let (p, t, energy) = match parse_meta_chars(&meta_part) {
            Ok(x) => x,
            Err(e) => return Err(e),
        };
        let project = string_of(&p);
        let tags = strings_of(&t);
        let iv = Interval { date, start, end, project, tags, energy, description };
        proof {
            let ghost spec_iv = parse_line(line@).unwrap();
            assert(iv@.tags =~= spec_iv.tags);
            assert(iv@.description =~= spec_iv.description);
            assert(iv@.project =~= spec_iv.project);
            lemma_parsed_wf(line@);
        }
        Ok(iv)
    }

    /// The line that represents this entry in a data file.
    pub fn serialize(&self) -> (r: String)
        ensures
            r@ == line_text(self@),
    {
        let mut v: Vec<char> = Vec::new();
        push_date(&mut v, self.date);
        v.push(' ');
        push_time(&mut v, self.start);
        append_str(&mut v, " - ");
        match self.end {
            Some(e) => push_time(&mut v, e),
            None => append_str(&mut v, "     "),
        }
        append_str(&mut v, " | ");
        let ghost before_meta = v@;
        push_meta(&mut v, &self.project, &self.tags, self.energy);
        if self.description.as_str().is_empty() {
            append_str(&mut v, " |");
        } else {
            append_str(&mut v, " | ");
            append_str(&mut v, self.description.as_str());
        }
        proof {
            reveal_strlit(" - ");
            reveal_strlit("     ");
            reveal_strlit(" | ");
            reveal_strlit(" |");
        }
        assert(v@ =~= line_text(self@));
        string_of(&v)
    }
}

/// Appends `@project #tag... !N`.
pub(crate) fn push_meta(v: &mut Vec<char>, project: &String, tags: &Vec<String>, energy: Option<u8>)
    ensures
        final(v)@ == old(v)@ + meta_text(project@, strs(tags@), energy),
{
    let ghost v0 = v@;
    v.push('@');
    append_str(v, project.as_str());
    let ghost after_project = v@;
    let mut i: usize = 0;
    while i < tags.len()
        invariant
            i <= tags.len(),
            v@ == after_project + tags_text(strs(tags@.take(i as int))),
        decreases tags.len() - i,
    {
        v.push(' ');
        v.push('#');
        append_str(v, tags[i].as_str());
        assert(strs(tags@.take(i + 1)).drop_last() =~= strs(tags@.take(i as int)));
        assert(v@ =~= after_project + tags_text(strs(tags@.take(i + 1))));
        i += 1;
    }
    assert(tags@.take(tags.len() as int) =~= tags@);
    match energy {
        Some(e) => {
            v.push(' ');
            v.push('!');
            let d = dec_chars(e as u64);
            append_chars(v, &d);
        },
        None => {},
    }
    assert(v@ =~= v0 + meta_text(project@, strs(tags@), energy));
}

/// The minutes a report counts for an entry.
pub open spec fn report_minutes(iv: IntervalV, today: Date, now: Time) -> Option<i64> {
    match iv.duration() {
        Some(d) => Some(d as i64),
        None => if iv.date == today {
            Some(minutes_between(iv.start, now) as i64)
        } else {
            None
        },
    }
}

/// What `parse_line` accepts is well formed.
pub proof fn lemma_parsed_wf(s: Seq<char>)
    ensures
        parse_line(s) matches Some(iv) ==> iv.wf(),
{
    let l = trim(s);
    let parts = splitn3(l, pipe_sep());
    if parse_line(s) is Some {
        lemma_meta_scan_wf(words(trim(trim_end_char(trim(parts[1]), '|'))));
    }
}

/// What the metadata reader accepts holds valid names and energy.
proof fn lemma_meta_scan_wf(toks: Seq<Seq<char>>)
    ensures
        meta_scan(toks) matches Some(m) ==> {
            &&& (m.project matches Some(p) ==> valid_name(p))
            &&& forall|i: int| 0 <= i < m.tags.len() ==> valid_name(#[trigger] m.tags[i])
            &&& valid_energy(m.energy)
        },
    decreases toks.len(),
{
    if toks.len() > 0 {
        lemma_meta_scan_wf(toks.drop_last());
    }
}

} // verus!
