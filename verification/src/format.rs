//! Durations as the reports print them.
use vstd::prelude::*;

use crate::text::{append_chars, append_str, dec, int_chars, int_chars_pad, int_str, int_str_pad, string_of};

verus! {

/// Integer division rounding toward zero, as Rust's `/` does.
pub open spec fn tdiv(a: int, b: int) -> int {
    if a >= 0 {
        a / b
    } else {
        -((-a) / b)
    }
}

/// The remainder that goes with `tdiv`, as Rust's `%` does.
pub open spec fn trem(a: int, b: int) -> int {
    a - tdiv(a, b) * b
}

/// `i64 / d` and `i64 % d` for a positive divisor, rounding toward zero.
fn div_rem(a: i64, d: i64) -> (r: (i64, i64))
    requires
        d > 0,
    ensures
        r.0 == tdiv(a as int, d as int),
        r.1 == trem(a as int, d as int),
{
    if a >= 0 {
        assert(a % d == a - (a / d) * d) by (nonlinear_arith)
            requires
                a >= 0,
                d > 0,
        ;
        assert(trem(a as int, d as int) == a % d);
        (a / d, a % d)
    } else {
        let m: i128 = -(a as i128);
        let dd: i128 = d as i128;
        let q: i128 = m / dd;
        let rm: i128 = m % dd;
        assert(rm == m - q * dd) by (nonlinear_arith)
            requires
                m > 0,
                dd > 0,
                q == m / dd,
                rm == m % dd,
        ;
        assert(q <= m);
        assert(tdiv(a as int, d as int) == -q);
        assert((-q) * dd == -(q * dd)) by (nonlinear_arith);
        assert(trem(a as int, d as int) == -rm);
        ((-q) as i64, (-rm) as i64)
    }
}

/// `H:MM`.
pub open spec fn duration_str_text(minutes: int) -> Seq<char> {
    int_str(tdiv(minutes, 60)) + seq![':'] + int_str_pad(trem(minutes, 60), 2)
}

/// `Hh MMm` when there are whole hours, otherwise `Mm`.
pub open spec fn duration_long_text(minutes: int) -> Seq<char> {
    if tdiv(minutes, 60) > 0 {
        int_str(tdiv(minutes, 60)) + seq!['h', ' '] + int_str_pad(trem(minutes, 60), 2) + seq!['m']
    } else {
        int_str(trem(minutes, 60)) + seq!['m']
    }
}

/// `Dd Hh MMm`, `Hh MMm` or `Mm` of the whole minutes in `seconds`, never negative.
pub open spec fn duration_ago_text(seconds: int) -> Seq<char> {
    let m = if tdiv(seconds, 60) > 0 {
        tdiv(seconds, 60)
    } else {
        0
    };
    let days = m / 1440;
    let hours = (m % 1440) / 60;
    let mins = m % 60;
    if days > 0 {
        int_str(days) + seq!['d', ' '] + int_str(hours) + seq!['h', ' '] + int_str_pad(mins, 2)
            + seq!['m']
    } else if hours > 0 {
        int_str(hours) + seq!['h', ' '] + int_str_pad(mins, 2) + seq!['m']
    } else {
        int_str(mins) + seq!['m']
    }
}

/// A duration in minutes as `H:MM`.
pub fn duration_str(minutes: i64) -> (r: String)
    ensures
        r@ == duration_str_text(minutes as int),
{
    let (h, m) = div_rem(minutes, 60);
    let mut v = int_chars(h);
    v.push(':');
    let mm = int_chars_pad(m, 2);
    append_chars(&mut v, &mm);
    assert(v@ =~= duration_str_text(minutes as int));
    string_of(&v)
}

/// A duration in minutes as `Hh MMm`, or `Mm` below an hour.
pub fn duration_long(minutes: i64) -> (r: String)
    ensures
        r@ == duration_long_text(minutes as int),
{
    let (h, m) = div_rem(minutes, 60);
    if h > 0 {
        let mut v = int_chars(h);
        v.push('h');
        v.push(' ');
        let mm = int_chars_pad(m, 2);
        append_chars(&mut v, &mm);
        v.push('m');
        assert(v@ =~= duration_long_text(minutes as int));
        string_of(&v)
    } else {
        let mut v = int_chars(m);
        v.push('m');
        assert(v@ =~= duration_long_text(minutes as int));
        string_of(&v)
    }
}

/// An elapsed time in seconds as `Dd Hh MMm`, `Hh MMm` or `Mm`; whole days are
/// shown so a timer left open for days does not read as a few hours, and a
/// negative elapsed time reads as `0m`.
pub fn duration_ago(seconds: i64) -> (r: String)
    ensures
        r@ == duration_ago_text(seconds as int),
{
    let (q, _) = div_rem(seconds, 60);
    let m = if q > 0 {
        q
    } else {
        0
    };
    let days = m / 1440;
    let hours = (m % 1440) / 60;
    let mins = m % 60;
    let mut v: Vec<char>;
    if days > 0 {
        v = int_chars(days);
        v.push('d');
        v.push(' ');
        let hh = int_chars(hours);
        append_chars(&mut v, &hh);
        v.push('h');
        v.push(' ');
        let mm = int_chars_pad(mins, 2);
        append_chars(&mut v, &mm);
        v.push('m');
    } else if hours > 0 {
        v = int_chars(hours);
        v.push('h');
        v.push(' ');
        let mm = int_chars_pad(mins, 2);
        append_chars(&mut v, &mm);
        v.push('m');
    } else {
        v = int_chars(mins);
        v.push('m');
    }
    assert(v@ =~= duration_ago_text(seconds as int));
    string_of(&v)
}

} // verus!
