//! Reading back what is written: the text forms of dates, times and whole
//! entries parse to the values they were written from.
use vstd::prelude::*;

use crate::calendar::{
    date_text, digits_at, field, parse_date, parse_time, time_text, two, valid_ymd, year_text,
    Date, Time,
};
use crate::interval::{
    dash_end, dash_sep, end_text, energy_level, energy_text, line_text, meta_scan, meta_step,
    meta_text, name_char, parse_date_time, parse_line, parse_meta, parse_time_segment, pipe_sep,
    tags_text, time_segment_text, valid_energy, valid_name, IntervalV, MetaV,
};
use crate::text::{
    all_digits, dec, digit_char, digit_value, digits_value, find, find_from, is_digit, is_ws,
    lemma_find_from_first, lemma_find_from_none, lemma_trim_bounds, matches_at, pad0, parse_u8,
    split_once, splitn3, strip_suffix, trim, trim_end, trim_end_char, trim_start, words, ws_scan,
    ws_step,
};

verus! {

// ---------------------------------------------------------------------------
// Digits
// ---------------------------------------------------------------------------

/// The digit characters have their values.
pub proof fn lemma_digit_char(k: int)
    requires
        0 <= k < 10,
    ensures
        is_digit(digit_char(k)),
        digit_value(digit_char(k)) == k,
{
}

/// The decimal form of `n` is all digits, has value `n`, and is short.
pub proof fn lemma_dec(n: nat)
    ensures
        all_digits(dec(n)),
        digits_value(dec(n)) == n,
        dec(n).len() >= 1,
        n < 10 ==> dec(n).len() == 1,
        n < 100 ==> dec(n).len() <= 2,
        n < 1000 ==> dec(n).len() <= 3,
        n < 10000 ==> dec(n).len() <= 4,
    decreases n,
{
    if n < 10 {
        lemma_digit_char(n as int);
        assert(dec(n).drop_last() =~= Seq::<char>::empty());
        assert(digits_value(Seq::<char>::empty()) == 0);
        assert(digits_value(dec(n)) == digits_value(dec(n).drop_last()) * 10 + digit_value(
            dec(n).last(),
        ));
    } else {
        lemma_dec(n / 10);
        lemma_digit_char((n % 10) as int);
        let s = dec(n);
        assert(s.drop_last() == dec(n / 10));
        assert(s.last() == digit_char((n % 10) as int));
        assert(digit_value(s.last()) == n % 10);
        assert(digits_value(dec(n / 10)) == n / 10);
        assert(digits_value(s) == digits_value(s.drop_last()) * 10 + digit_value(s.last()));
        assert((n / 10) * 10 + n % 10 == n);
        assert forall|i: int| 0 <= i < s.len() implies is_digit(#[trigger] s[i]) by {
            if i < s.len() - 1 {
                assert(s[i] == dec(n / 10)[i]);
            }
        }
    }
}

/// A number of at least 1000 has at least four digits.
pub proof fn lemma_dec_at_least(n: nat)
    requires
        n >= 1000,
    ensures
        dec(n).len() >= 4,
{
    assert(dec(n).drop_last() == dec(n / 10));
    assert(dec(n / 10).drop_last() == dec(n / 100));
    assert(dec(n / 100).drop_last() == dec(n / 1000));
    lemma_dec(n / 1000);
}

/// Leading zeros change neither digit-ness nor value.
pub proof fn lemma_zero_prefix(s: Seq<char>)
    requires
        all_digits(s),
    ensures
        all_digits(seq!['0'] + s),
        digits_value(seq!['0'] + s) == digits_value(s),
    decreases s.len(),
{
    let z = seq!['0'] + s;
    if s.len() == 0 {
        assert(z.drop_last() =~= Seq::<char>::empty());
        assert(digits_value(Seq::<char>::empty()) == 0);
        assert(z.last() == '0');
    } else {
        assert(z.drop_last() =~= seq!['0'] + s.drop_last());
        assert(z.last() == s.last());
        assert(is_digit(s[s.len() - 1]));
        assert(all_digits(s.drop_last())) by {
            assert forall|i: int| 0 <= i < s.drop_last().len() implies is_digit(
                #[trigger] s.drop_last()[i],
            ) by {
                assert(s.drop_last()[i] == s[i]);
            }
        }
        lemma_zero_prefix(s.drop_last());
        assert(digits_value(z) == digits_value(z.drop_last()) * 10 + digit_value(z.last()));
    }
    assert forall|i: int| 0 <= i < z.len() implies is_digit(#[trigger] z[i]) by {
        if i > 0 {
            assert(z[i] == s[i - 1]);
        }
    }
}

/// Padding with zeros keeps the value and reaches the width.
pub proof fn lemma_pad0(s: Seq<char>, w: nat)
    requires
        all_digits(s),
    ensures
        all_digits(pad0(s, w)),
        digits_value(pad0(s, w)) == digits_value(s),
        pad0(s, w).len() == if s.len() < w {
            w
        } else {
            s.len()
        },
    decreases w,
{
    if s.len() < w {
        let k = (w - s.len()) as nat;
        let zs = Seq::new(k, |i: int| '0');
        if k == 1 {
            assert(zs =~= seq!['0']);
            lemma_zero_prefix(s);
        } else {
            lemma_pad0(s, (w - 1) as nat);
            let zs1 = Seq::new((k - 1) as nat, |i: int| '0');
            assert(zs + s =~= seq!['0'] + (zs1 + s));
            assert(pad0(s, (w - 1) as nat) == zs1 + s);
            lemma_zero_prefix(zs1 + s);
        }
    }
}

/// Two digits of a number below 100.
pub proof fn lemma_two(n: int)
    requires
        0 <= n < 100,
    ensures
        two(n).len() == 2,
        all_digits(two(n)),
        digits_value(two(n)) == n,
{
    lemma_dec(n as nat);
    lemma_pad0(dec(n as nat), 2);
}

/// Four digits of a year in 0..=9999.
pub proof fn lemma_year(y: int)
    requires
        0 <= y <= 9999,
    ensures
        year_text(y).len() == 4,
        all_digits(year_text(y)),
        digits_value(year_text(y)) == y,
{
    lemma_dec(y as nat);
    lemma_pad0(dec(y as nat), 4);
}

// ---------------------------------------------------------------------------
// Dates and times
// ---------------------------------------------------------------------------

/// A character of a written date or time.
pub open spec fn stamp_char(c: char) -> bool {
    is_digit(c) || c == '-' || c == ':'
}

/// Every character of `s` satisfies `stamp_char`.
pub open spec fn all_stamp(s: Seq<char>) -> bool {
    forall|i: int| 0 <= i < s.len() ==> stamp_char(#[trigger] s[i])
}

/// Digits are stamp characters.
proof fn lemma_digits_stamp(s: Seq<char>)
    requires
        all_digits(s),
    ensures
        all_stamp(s),
{
    assert forall|i: int| 0 <= i < s.len() implies stamp_char(#[trigger] s[i]) by {
        assert(is_digit(s[i]));
    }
}

/// The written form of a date with a four-digit year.
pub proof fn lemma_date_text(d: Date)
    requires
        d.wf(),
        0 <= d.year <= 9999,
    ensures
        date_text(d).len() == 10,
        all_stamp(date_text(d)),
        is_digit(date_text(d)[0]),
        is_digit(date_text(d).last()),
        parse_date(date_text(d)) == Some(d),
{
    let s = date_text(d);
    lemma_year(d.year as int);
    lemma_two(d.month as int);
    lemma_two(d.day as int);
    let ys = year_text(d.year as int);
    let ms = two(d.month as int);
    let ds = two(d.day as int);
    assert(s.subrange(0, 4) =~= ys);
    assert(s.subrange(5, 7) =~= ms);
    assert(s.subrange(8, 10) =~= ds);
    assert(s[4] == '-');
    assert(s[7] == '-');
    lemma_digits_stamp(ys);
    lemma_digits_stamp(ms);
    lemma_digits_stamp(ds);
    assert forall|i: int| 0 <= i < s.len() implies stamp_char(#[trigger] s[i]) by {
        if i < 4 {
            assert(s[i] == ys[i]);
        } else if 5 <= i < 7 {
            assert(s[i] == ms[i - 5]);
        } else if 8 <= i {
            assert(s[i] == ds[i - 8]);
        }
    }
    assert(s[0] == ys[0]);
    assert(s.last() == ds[1]);
    assert(valid_ymd(field(s, 0, 4), field(s, 5, 7), field(s, 8, 10)));
}

/// The written form of a time of day.
pub proof fn lemma_time_text(t: Time)
    requires
        t.wf(),
    ensures
        time_text(t).len() == 5,
        all_stamp(time_text(t)),
        is_digit(time_text(t)[0]),
        is_digit(time_text(t).last()),
        parse_time(time_text(t)) == Some(t),
{
    let s = time_text(t);
    lemma_two(t.hour as int);
    lemma_two(t.minute as int);
    let hs = two(t.hour as int);
    let ms = two(t.minute as int);
    assert(s.subrange(0, 2) =~= hs);
    assert(s.subrange(3, 5) =~= ms);
    lemma_digits_stamp(hs);
    lemma_digits_stamp(ms);
    assert forall|i: int| 0 <= i < s.len() implies stamp_char(#[trigger] s[i]) by {
        if i < 2 {
            assert(s[i] == hs[i]);
        } else if 3 <= i {
            assert(s[i] == ms[i - 3]);
        }
    }
    assert(s[0] == hs[0]);
    assert(s.last() == ms[1]);
}


// ---------------------------------------------------------------------------
// Splitting on white space
// ---------------------------------------------------------------------------

/// No character of `s` is white space.
pub open spec fn no_ws(s: Seq<char>) -> bool {
    forall|i: int| 0 <= i < s.len() ==> !is_ws(#[trigger] s[i])
}

/// Reading a run without white space extends the current word.
pub proof fn lemma_scan_word(p: Seq<char>, x: Seq<char>)
    requires
        no_ws(x),
    ensures
        ws_scan(p + x) == (ws_scan(p).0, ws_scan(p).1 + x),
    decreases x.len(),
{
    if x.len() == 0 {
        assert(p + x =~= p);
        assert(ws_scan(p).1 + x =~= ws_scan(p).1);
    } else {
        let x1 = x.drop_last();
        assert forall|i: int| 0 <= i < x1.len() implies !is_ws(#[trigger] x1[i]) by {
            assert(x1[i] == x[i]);
        }
        lemma_scan_word(p, x1);
        assert((p + x).drop_last() =~= p + x1);
        assert((p + x).last() == x.last());
        assert(!is_ws(x[x.len() - 1]));
        assert(ws_scan(p).1 + x1.push(x.last()) =~= ws_scan(p).1 + x);
        assert(x1.push(x.last()) =~= x);
    }
}

/// Reading a white space character finishes the current word.
pub proof fn lemma_scan_space(p: Seq<char>, c: char)
    requires
        is_ws(c),
    ensures
        ws_scan(p.push(c)) == (words(p), Seq::<char>::empty()),
{
    assert(p.push(c).drop_last() =~= p);
}

/// Two words separated by one space.
pub proof fn lemma_words_two(a: Seq<char>, b: Seq<char>)
    requires
        a.len() > 0,
        b.len() > 0,
        no_ws(a),
        no_ws(b),
    ensures
        words(a + seq![' '] + b) == seq![a, b],
{
    let e = Seq::<char>::empty();
    assert(ws_scan(e) == (Seq::<Seq<char>>::empty(), e));
    lemma_scan_word(e, a);
    assert(e + a =~= a);
    lemma_scan_space(a, ' ');
    assert(a + seq![' '] =~= a.push(' '));
    lemma_scan_word(a.push(' '), b);
    assert(a + seq![' '] + b =~= a.push(' ') + b);
    assert(words(a) =~= seq![a]);
    assert(e + b =~= b);
    assert(words(a + seq![' '] + b) =~= seq![a, b]);
}

// ---------------------------------------------------------------------------
// Metadata
// ---------------------------------------------------------------------------

/// Name characters are not white space and not `|`.
proof fn lemma_name_char(c: char)
    requires
        name_char(c),
    ensures
        !is_ws(c),
        c != '|',
        c != '\n',
{
}

/// A valid name has no white space.
proof fn lemma_name_no_ws(n: Seq<char>)
    requires
        valid_name(n),
    ensures
        no_ws(n),
        forall|i: int| 0 <= i < n.len() ==> #[trigger] n[i] != '|',
        no_nl(n),
{
    assert forall|i: int| 0 <= i < n.len() implies !is_ws(#[trigger] n[i]) && n[i] != '|' && n[i] != '\n' by {
        lemma_name_char(n[i]);
    }
}

/// The words of `@project #tag...`.
pub open spec fn tag_tokens(project: Seq<char>, tags: Seq<Seq<char>>) -> Seq<Seq<char>>
    decreases tags.len(),
{
    if tags.len() == 0 {
        seq![seq!['@'] + project]
    } else {
        tag_tokens(project, tags.drop_last()).push(seq!['#'] + tags.last())
    }
}

/// The words of the whole metadata segment.
pub open spec fn meta_tokens(project: Seq<char>, tags: Seq<Seq<char>>, energy: Option<u8>) -> Seq<
    Seq<char>,
> {
    match energy {
        Some(e) => tag_tokens(project, tags).push(seq!['!'] + dec(e as nat)),
        None => tag_tokens(project, tags),
    }
}

/// A sigil followed by a name has no white space.
proof fn lemma_sigil_no_ws(c: char, n: Seq<char>)
    requires
        !is_ws(c),
        no_ws(n),
    ensures
        no_ws(seq![c] + n),
{
    assert forall|i: int| 0 <= i < (seq![c] + n).len() implies !is_ws(#[trigger] (seq![c] + n)[i]) by {
        if i > 0 {
            assert((seq![c] + n)[i] == n[i - 1]);
        }
    }
}

/// Scanning `@project #tag...` leaves every token but the last finished.
proof fn lemma_scan_tags(project: Seq<char>, tags: Seq<Seq<char>>)
    requires
        valid_name(project),
        forall|i: int| 0 <= i < tags.len() ==> valid_name(#[trigger] tags[i]),
    ensures
        ws_scan(seq!['@'] + project + tags_text(tags)) == (
            tag_tokens(project, tags).drop_last(),
            tag_tokens(project, tags).last(),
        ),
        tag_tokens(project, tags).len() == tags.len() + 1,
        tag_tokens(project, tags).last().len() > 0,
    decreases tags.len(),
{
    let e = Seq::<char>::empty();
    if tags.len() == 0 {
        lemma_name_no_ws(project);
        lemma_sigil_no_ws('@', project);
        lemma_scan_word(e, seq!['@'] + project);
        assert(e + (seq!['@'] + project) =~= seq!['@'] + project);
        assert(seq!['@'] + project + tags_text(tags) =~= seq!['@'] + project);
        assert(seq![seq!['@'] + project].drop_last() =~= Seq::<Seq<char>>::empty());
        assert(ws_scan(e).1 + (seq!['@'] + project) =~= seq!['@'] + project);
    } else {
        let t = tags.last();
        let rest = tags.drop_last();
        assert forall|i: int| 0 <= i < rest.len() implies valid_name(#[trigger] rest[i]) by {
            assert(rest[i] == tags[i]);
        }
        lemma_scan_tags(project, rest);
        assert(valid_name(tags[tags.len() - 1]));
        lemma_name_no_ws(t);
        lemma_sigil_no_ws('#', t);
        let x = seq!['@'] + project + tags_text(rest);
        let prev = tag_tokens(project, rest);
        lemma_scan_space(x, ' ');
        assert(words(x) =~= prev.drop_last().push(prev.last()));
        assert(prev.drop_last().push(prev.last()) =~= prev);
        lemma_scan_word(x.push(' '), seq!['#'] + t);
        assert(seq!['@'] + project + tags_text(tags) =~= x.push(' ') + (seq!['#'] + t));
        assert(e + (seq!['#'] + t) =~= seq!['#'] + t);
        assert(tag_tokens(project, tags).drop_last() =~= prev);
    }
}

/// The words of the metadata segment as written.
pub proof fn lemma_meta_words(project: Seq<char>, tags: Seq<Seq<char>>, energy: Option<u8>)
    requires
        valid_name(project),
        forall|i: int| 0 <= i < tags.len() ==> valid_name(#[trigger] tags[i]),
        valid_energy(energy),
    ensures
        words(meta_text(project, tags, energy)) == meta_tokens(project, tags, energy),
{
    lemma_scan_tags(project, tags);
    let x = seq!['@'] + project + tags_text(tags);
    let toks = tag_tokens(project, tags);
    match energy {
        Some(v) => {
            let d = dec(v as nat);
            lemma_dec(v as nat);
            assert(d.len() == 1);
            lemma_digit_char(v as int);
            assert(no_ws(d)) by {
                assert(d[0] == digit_char(v as int));
            }
            lemma_sigil_no_ws('!', d);
            lemma_scan_space(x, ' ');
            assert(words(x) =~= toks.drop_last().push(toks.last()));
            assert(toks.drop_last().push(toks.last()) =~= toks);
            lemma_scan_word(x.push(' '), seq!['!'] + d);
            assert(meta_text(project, tags, energy) =~= x.push(' ') + (seq!['!'] + d));
            assert(Seq::<char>::empty() + (seq!['!'] + d) =~= seq!['!'] + d);
        },
        None => {
            assert(meta_text(project, tags, energy) =~= x);
            assert(toks.drop_last().push(toks.last()) =~= toks);
        },
    }
}

/// Reading the tokens of `@project #tag...` gives the project and tags.
proof fn lemma_scan_tag_tokens(project: Seq<char>, tags: Seq<Seq<char>>)
    requires
        valid_name(project),
        forall|i: int| 0 <= i < tags.len() ==> valid_name(#[trigger] tags[i]),
    ensures
        meta_scan(tag_tokens(project, tags)) == Some(
            MetaV { project: Some(project), tags: tags, energy: None },
        ),
    decreases tags.len(),
{
    if tags.len() == 0 {
        let tok = seq!['@'] + project;
        assert(tok.drop_first() =~= project);
        assert(seq![tok].drop_last() =~= Seq::<Seq<char>>::empty());
        assert(meta_scan(Seq::<Seq<char>>::empty()) == Some(
            MetaV { project: None, tags: Seq::<Seq<char>>::empty(), energy: None },
        ));
        assert(tags =~= Seq::<Seq<char>>::empty());
        let toks = tag_tokens(project, tags);
        assert(toks =~= seq![tok]);
        assert(meta_scan(toks) == meta_step(meta_scan(toks.drop_last()), toks.last()));
    } else {
        let rest = tags.drop_last();
        assert forall|i: int| 0 <= i < rest.len() implies valid_name(#[trigger] rest[i]) by {
            assert(rest[i] == tags[i]);
        }
        lemma_scan_tag_tokens(project, rest);
        let tok = seq!['#'] + tags.last();
        assert(tok.drop_first() =~= tags.last());
        assert(valid_name(tags[tags.len() - 1]));
        assert(rest.push(tags.last()) =~= tags);
        let toks = tag_tokens(project, tags);
        assert(toks.drop_last() =~= tag_tokens(project, rest));
        assert(toks.last() == tok);
        assert(meta_scan(toks) == meta_step(meta_scan(toks.drop_last()), toks.last()));
    }
}

/// `!N` reads back as energy level `N`.
proof fn lemma_energy_level(v: u8)
    requires
        1 <= v <= 5,
    ensures
        energy_level(dec(v as nat)) == Some(v),
{
    lemma_dec(v as nat);
    lemma_digit_char(v as int);
    let d = dec(v as nat);
    assert(d.len() == 1);
    assert(d[0] == digit_char(v as int));
    assert(parse_u8(d) == Some(v));
}

/// The metadata segment as written reads back.
pub proof fn lemma_meta_round_trip(project: Seq<char>, tags: Seq<Seq<char>>, energy: Option<u8>)
    requires
        valid_name(project),
        forall|i: int| 0 <= i < tags.len() ==> valid_name(#[trigger] tags[i]),
        valid_energy(energy),
    ensures
        parse_meta(meta_text(project, tags, energy)) == Some((project, tags, energy)),
{
    lemma_meta_words(project, tags, energy);
    lemma_scan_tag_tokens(project, tags);
    match energy {
        Some(v) => {
            let toks = meta_tokens(project, tags, energy);
            let tok = seq!['!'] + dec(v as nat);
            assert(toks.drop_last() =~= tag_tokens(project, tags));
            assert(tok.drop_first() =~= dec(v as nat));
            lemma_energy_level(v);
        },
        None => {},
    }
}

// ---------------------------------------------------------------------------
// Separators
// ---------------------------------------------------------------------------

/// No character of `s` is `|`.
pub open spec fn no_pipe(s: Seq<char>) -> bool {
    forall|i: int| 0 <= i < s.len() ==> #[trigger] s[i] != '|'
}

/// No character of `s` is a line feed.
pub open spec fn no_nl(s: Seq<char>) -> bool {
    forall|i: int| 0 <= i < s.len() ==> #[trigger] s[i] != '\n'
}

/// `a | b` splits at the first ` | ` when `a` has no `|`.
pub proof fn lemma_split_pipe(a: Seq<char>, b: Seq<char>)
    requires
        no_pipe(a),
    ensures
        split_once(a + pipe_sep() + b, pipe_sep()) == Some((a, b)),
{
    let p = pipe_sep();
    let s = a + p + b;
    assert(s.subrange(a.len() as int, a.len() + 3int) =~= p);
    assert forall|j: int| 0 <= j < a.len() implies !matches_at(s, p, j) by {
        if matches_at(s, p, j) {
            assert(s.subrange(j, j + 3)[1] == s[j + 1]);
            if j + 1 < a.len() {
                assert(s[j + 1] == a[j + 1]);
            } else {
                assert(s[j + 1] == ' ');
            }
        }
    }
    lemma_find_from_first(s, p, 0, a.len() as int);
    assert(s.subrange(0, a.len() as int) =~= a);
    assert(s.subrange(a.len() + 3int, s.len() as int) =~= b);
}

/// `a |` has no ` | ` when `a` has no `|`.
pub proof fn lemma_no_split_pipe(a: Seq<char>)
    requires
        no_pipe(a),
    ensures
        split_once(a + seq![' ', '|'], pipe_sep()) is None,
{
    let p = pipe_sep();
    let s = a + seq![' ', '|'];
    assert forall|j: int| 0 <= j implies !matches_at(s, p, j) by {
        if matches_at(s, p, j) {
            assert(s.subrange(j, j + 3)[1] == s[j + 1]);
            if j + 1 < a.len() {
                assert(s[j + 1] == a[j + 1]);
            } else {
                assert(s[j + 1] == ' ');
            }
        }
    }
    lemma_find_from_none(s, p, 0);
}

/// A stamp character is neither white space nor `|` nor a space.
proof fn lemma_stamp_char(c: char)
    requires
        stamp_char(c),
    ensures
        !is_ws(c),
        c != '|',
        c != ' ',
        c != '\n',
{
}

/// Stamp text has no white space and no `|`.
proof fn lemma_stamp_text(s: Seq<char>)
    requires
        all_stamp(s),
    ensures
        no_ws(s),
        no_pipe(s),
{
    assert forall|i: int| 0 <= i < s.len() implies !is_ws(#[trigger] s[i]) && s[i] != '|' by {
        lemma_stamp_char(s[i]);
    }
}

/// `date HH:MM - rest` splits at the ` - ` after the time.
proof fn lemma_split_dash(d: Seq<char>, t: Seq<char>, rest: Seq<char>)
    requires
        d.len() == 10,
        t.len() == 5,
        all_stamp(d),
        all_stamp(t),
        is_digit(t[0]),
    ensures
        split_once(d + seq![' '] + t + dash_sep() + rest, dash_sep()) == Some(
            (d + seq![' '] + t, rest),
        ),
{
    let p = dash_sep();
    let s = d + seq![' '] + t + p + rest;
    assert(s.subrange(16, 19) =~= p);
    assert forall|j: int| 0 <= j < 16 implies !matches_at(s, p, j) by {
        if matches_at(s, p, j) {
            assert(s.subrange(j, j + 3)[0] == s[j]);
            assert(s.subrange(j, j + 3)[1] == s[j + 1]);
            if j < 10 {
                assert(s[j] == d[j]);
                lemma_stamp_char(d[j]);
            } else if j == 10 {
                assert(s[11] == t[0]);
            } else {
                assert(s[j] == t[j - 11]);
                lemma_stamp_char(t[j - 11]);
            }
        }
    }
    lemma_find_from_first(s, p, 0, 16);
    assert(s.subrange(0, 16) =~= d + seq![' '] + t);
    assert(s.subrange(19, s.len() as int) =~= rest);
}

/// `date HH:MM -` has no ` - ` and ends in ` -`.
proof fn lemma_open_dash(d: Seq<char>, t: Seq<char>)
    requires
        d.len() == 10,
        t.len() == 5,
        all_stamp(d),
        all_stamp(t),
        is_digit(t[0]),
    ensures
        split_once(d + seq![' '] + t + dash_end(), dash_sep()) is None,
        strip_suffix(d + seq![' '] + t + dash_end(), dash_end()) == Some(d + seq![' '] + t),
{
    let p = dash_sep();
    let s = d + seq![' '] + t + dash_end();
    assert(s.len() == 18);
    assert forall|j: int| 0 <= j implies !matches_at(s, p, j) by {
        if matches_at(s, p, j) {
            assert(s.subrange(j, j + 3)[0] == s[j]);
            assert(s.subrange(j, j + 3)[1] == s[j + 1]);
            if j < 10 {
                assert(s[j] == d[j]);
                lemma_stamp_char(d[j]);
            } else if j == 10 {
                assert(s[11] == t[0]);
            } else if j < 16 {
                assert(s[j] == t[j - 11]);
                lemma_stamp_char(t[j - 11]);
            }
        }
    }
    lemma_find_from_none(s, p, 0);
    assert(s.subrange(16, 18) =~= dash_end());
    assert(s.subrange(0, 16) =~= d + seq![' '] + t);
}

/// `date HH:MM` reads back.
proof fn lemma_date_time_round_trip(d: Date, t: Time)
    requires
        d.wf(),
        0 <= d.year <= 9999,
        t.wf(),
    ensures
        parse_date_time(trim(date_text(d) + seq![' '] + time_text(t))) == Some((d, t)),
{
    lemma_date_text(d);
    lemma_time_text(t);
    let ds = date_text(d);
    let ts = time_text(t);
    let s = ds + seq![' '] + ts;
    lemma_stamp_text(ds);
    lemma_stamp_text(ts);
    assert(s[0] == ds[0]);
    assert(s.last() == ts.last());
    assert(trim(s) == s) by {
        crate::text::lemma_trim_noop(s);
    }
    lemma_words_two(ds, ts);
}

/// Trailing spaces do not survive `trim_end`.
proof fn lemma_trim_end_spaces(x: Seq<char>, k: nat)
    ensures
        trim_end(x + Seq::new(k, |i: int| ' ')) == trim_end(x),
    decreases k,
{
    let sp = Seq::new(k, |i: int| ' ');
    if k == 0 {
        assert(x + sp =~= x);
    } else {
        let sp1 = Seq::new((k - 1) as nat, |i: int| ' ');
        assert((x + sp).drop_last() =~= x + sp1);
        assert((x + sp).last() == ' ');
        lemma_trim_end_spaces(x, (k - 1) as nat);
    }
}

/// The time segment as written reads back.
pub proof fn lemma_time_segment_round_trip(iv: IntervalV)
    requires
        iv.date.wf(),
        0 <= iv.date.year <= 9999,
        iv.start.wf(),
        iv.end matches Some(e) ==> e.wf(),
    ensures
        time_segment_text(iv).len() > 0,
        is_digit(time_segment_text(iv)[0]),
        no_pipe(time_segment_text(iv)),
        no_nl(time_segment_text(iv)),
        parse_time_segment(trim(time_segment_text(iv))) == Some((iv.date, iv.start, iv.end)),
{
    let ds = date_text(iv.date);
    let ts = time_text(iv.start);
    lemma_date_text(iv.date);
    lemma_time_text(iv.start);
    lemma_stamp_text(ds);
    lemma_stamp_text(ts);
    let seg = time_segment_text(iv);
    let head = ds + seq![' '] + ts;
    assert(seg[0] == ds[0]);
    lemma_date_time_round_trip(iv.date, iv.start);
    assert(trim(head) == head) by {
        assert(head[0] == ds[0]);
        assert(head.last() == ts.last());
        crate::text::lemma_trim_noop(head);
    }
    match iv.end {
        Some(e) => {
            let es = time_text(e);
            lemma_time_text(e);
            lemma_stamp_text(es);
            assert(seg =~= head + dash_sep() + es);
            assert(seg.last() == es.last());
            assert(no_pipe(seg) && no_nl(seg)) by {
                assert forall|i: int| 0 <= i < seg.len() implies #[trigger] seg[i] != '|' && seg[i] != '\n' by {
                    if i < 10 {
                        assert(seg[i] == ds[i]);
                        lemma_stamp_char(ds[i]);
                    } else if 11 <= i < 16 {
                        assert(seg[i] == ts[i - 11]);
                        lemma_stamp_char(ts[i - 11]);
                    } else if 19 <= i {
                        assert(seg[i] == es[i - 19]);
                        lemma_stamp_char(es[i - 19]);
                    }
                }
            }
            assert(trim(seg) == seg) by {
                crate::text::lemma_trim_noop(seg);
            }
            lemma_split_dash(ds, ts, es);
            assert(trim(es) == es) by {
                crate::text::lemma_trim_noop(es);
            }
        },
        None => {
            let x = head + dash_end();
            let six = Seq::new(6, |i: int| ' ');
            assert(seg =~= x + six);
            assert(no_pipe(seg) && no_nl(seg)) by {
                assert forall|i: int| 0 <= i < seg.len() implies #[trigger] seg[i] != '|' && seg[i] != '\n' by {
                    if i < 10 {
                        assert(seg[i] == ds[i]);
                        lemma_stamp_char(ds[i]);
                    } else if 11 <= i < 16 {
                        assert(seg[i] == ts[i - 11]);
                        lemma_stamp_char(ts[i - 11]);
                    }
                }
            }
            lemma_trim_end_spaces(x, 6);
            assert(x.last() == '-');
            assert(trim_start(seg) == seg);
            assert(trim_end(x) == x);
            assert(trim(seg) == x);
            lemma_open_dash(ds, ts);
        },
    }
}

/// The metadata text starts with `@`, has no `|`, and does not end in white
/// space or `|`.
pub proof fn lemma_meta_shape(project: Seq<char>, tags: Seq<Seq<char>>, energy: Option<u8>)
    requires
        valid_name(project),
        forall|i: int| 0 <= i < tags.len() ==> valid_name(#[trigger] tags[i]),
        valid_energy(energy),
    ensures
        meta_text(project, tags, energy).len() > 0,
        meta_text(project, tags, energy)[0] == '@',
        no_pipe(meta_text(project, tags, energy)),
        no_nl(meta_text(project, tags, energy)),
        !is_ws(meta_text(project, tags, energy).last()),
        meta_text(project, tags, energy).last() != '|',
{
    let m = meta_text(project, tags, energy);
    lemma_tags_shape(tags);
    lemma_name_no_ws(project);
    let a = seq!['@'] + project;
    let tt = tags_text(tags);
    let et = energy_text(energy);
    assert(m =~= a + tt + et);
    assert(m[0] == '@');
    match energy {
        Some(v) => {
            lemma_dec(v as nat);
            lemma_digit_char(v as int);
            assert(dec(v as nat)[0] == digit_char(v as int));
            assert(m.last() == dec(v as nat)[0]);
        },
        None => {
            if tags.len() > 0 {
                assert(m.last() == tt.last());
            } else {
                assert(m.last() == project.last());
                assert(name_char(project[project.len() - 1]));
            }
        },
    }
    assert forall|i: int| 0 <= i < m.len() implies #[trigger] m[i] != '|' && m[i] != '\n' by {
        if 1 <= i < 1 + project.len() {
            assert(m[i] == project[i - 1]);
        } else if 1 + project.len() <= i < 1 + project.len() + tt.len() {
            assert(m[i] == tt[i - 1 - project.len()]);
        } else if 1 + project.len() + tt.len() <= i {
            match energy {
                Some(v) => {
                    let k = i - 1 - project.len() - tt.len();
                    assert(m[i] == et[k]);
                    if k >= 2 {
                        assert(et[k] == dec(v as nat)[k - 2]);
                    }
                },
                None => {},
            }
        }
    }
}

/// The tags text has no `|` and, when there are tags, ends in a name character.
proof fn lemma_tags_shape(tags: Seq<Seq<char>>)
    requires
        forall|i: int| 0 <= i < tags.len() ==> valid_name(#[trigger] tags[i]),
    ensures
        no_pipe(tags_text(tags)),
        no_nl(tags_text(tags)),
        tags.len() > 0 ==> tags_text(tags).len() > 0 && name_char(tags_text(tags).last()),
    decreases tags.len(),
{
    if tags.len() > 0 {
        let rest = tags.drop_last();
        assert forall|i: int| 0 <= i < rest.len() implies valid_name(#[trigger] rest[i]) by {
            assert(rest[i] == tags[i]);
        }
        lemma_tags_shape(rest);
        let t = tags.last();
        assert(valid_name(tags[tags.len() - 1]));
        lemma_name_no_ws(t);
        let x = tags_text(rest);
        let s = tags_text(tags);
        assert(s =~= x + seq![' ', '#'] + t);
        assert(s.last() == t.last());
        assert(name_char(t[t.len() - 1]));
        assert forall|i: int| 0 <= i < s.len() implies #[trigger] s[i] != '|' && s[i] != '\n' by {
            if i < x.len() {
                assert(s[i] == x[i]);
            } else if i >= x.len() + 2 {
                assert(s[i] == t[i - x.len() - 2]);
            }
        }
    }
}

// ---------------------------------------------------------------------------
// The law
// ---------------------------------------------------------------------------

/// Reading back the line an entry is written as gives the same entry, for
/// every entry the format holds whose year has four digits and whose
/// description neither starts nor ends with white space.
pub proof fn law_line_round_trip(iv: IntervalV)
    requires
        iv.wf(),
        0 <= iv.date.year <= 9999,
        trim(iv.description) == iv.description,
    ensures
        parse_line(line_text(iv)) == Some(iv),
{
    let seg = time_segment_text(iv);
    let m = meta_text(iv.project, iv.tags, iv.energy);
    let desc = iv.description;
    let line = line_text(iv);
    lemma_time_segment_round_trip(iv);
    lemma_meta_shape(iv.project, iv.tags, iv.energy);
    lemma_meta_round_trip(iv.project, iv.tags, iv.energy);
    lemma_trim_bounds(desc);
    let tail = if desc.len() == 0 {
        seq![' ', '|']
    } else {
        pipe_sep() + desc
    };
    assert(line =~= seg + pipe_sep() + (m + tail));
    assert(line[0] == seg[0]);
    assert(trim(line) == line) by {
        if desc.len() == 0 {
            assert(line.last() == '|');
        } else {
            assert(line.last() == desc.last());
        }
        crate::text::lemma_trim_noop(line);
    }
    lemma_split_pipe(seg, m + tail);
    let parts = splitn3(line, pipe_sep());
    if desc.len() == 0 {
        lemma_no_split_pipe(m);
        assert(parts =~= seq![seg, m + seq![' ', '|']]);
        let mb = m + seq![' ', '|'];
        assert(trim(mb) == mb) by {
            assert(mb[0] == '@');
            crate::text::lemma_trim_noop(mb);
        }
        assert(mb.drop_last() =~= m.push(' '));
        assert(trim_end_char(m.push(' '), '|') == m.push(' '));
        assert(trim_end_char(mb, '|') == m.push(' '));
        assert(m.push(' ').drop_last() =~= m);
        assert(trim_end(m.push(' ')) == trim_end(m));
        assert(trim(m) == m) by {
            crate::text::lemma_trim_noop(m);
        }
        assert(trim_start(m.push(' ')) == m.push(' '));
        assert(trim(m.push(' ')) == m);
        assert(desc =~= Seq::<char>::empty());
    } else {
        lemma_split_pipe(m, desc);
        assert(m + tail =~= m + pipe_sep() + desc);
        assert(parts =~= seq![seg, m, desc]);
        assert(trim(m) == m) by {
            crate::text::lemma_trim_noop(m);
        }
        assert(trim_end_char(m, '|') == m);
    }
}

/// The line an entry is written as: it starts with a digit, has no white
/// space at either end, no line feed (when the description has none), and
/// does not end in a carriage return.
pub proof fn lemma_line_shape(iv: IntervalV)
    requires
        iv.wf(),
        0 <= iv.date.year <= 9999,
        trim(iv.description) == iv.description,
        no_nl(iv.description),
    ensures
        line_text(iv).len() > 0,
        is_digit(line_text(iv)[0]),
        trim(line_text(iv)) == line_text(iv),
        no_nl(line_text(iv)),
        line_text(iv).last() != '\r',
{
    let seg = time_segment_text(iv);
    let m = meta_text(iv.project, iv.tags, iv.energy);
    let desc = iv.description;
    let line = line_text(iv);
    lemma_time_segment_round_trip(iv);
    lemma_meta_shape(iv.project, iv.tags, iv.energy);
    lemma_trim_bounds(desc);
    let tail = if desc.len() == 0 {
        seq![' ', '|']
    } else {
        pipe_sep() + desc
    };
    assert(line =~= seg + pipe_sep() + m + tail);
    assert(line[0] == seg[0]);
    if desc.len() == 0 {
        assert(line.last() == '|');
    } else {
        assert(line.last() == desc.last());
    }
    crate::text::lemma_trim_noop(line);
    assert forall|i: int| 0 <= i < line.len() implies #[trigger] line[i] != '\n' by {
        let a = seg.len() as int;
        let b = a + 3 + m.len();
        if i < a {
            assert(line[i] == seg[i]);
        } else if a + 3 <= i < b {
            assert(line[i] == m[i - a - 3]);
        } else if b + 3 <= i {
            assert(line[i] == desc[i - b - 3]);
        }
    }
}

} // verus!
