//! Command-line arguments: `--at HH:MM`, and `@project #tag !N description`.
use vstd::prelude::*;

use crate::calendar::{chrono_time_reason, parse_time, parse_time_chars, refusal_text, time_refusal, Time};
use crate::interval::{
    energy_error, token_error, energy_level, energy_token, meta_step, meta_token, msg3, strings_of, strs, valid_energy,
    valid_name, vv, MetaAcc, MetaV,
};
use crate::text::{append_chars, chars_of, string_of};

verus! {

/// The time of day `s` seconds after midnight, truncated to the minute.
pub open spec fn truncated(s: int) -> Time {
    Time { hour: (s / 3600) as u32, minute: ((s % 3600) / 60) as u32 }
}

/// Truncates a time of day given in seconds since midnight to the minute.
pub fn truncate_to_minutes(second_of_day: u32) -> (t: Time)
    requires
        second_of_day < 86400,
    ensures
        t == truncated(second_of_day as int),
        t.wf(),
{
    Time { hour: second_of_day / 3600, minute: (second_of_day % 3600) / 60 }
}

/// `at` parsed as `HH:MM` when given, otherwise the default clock time
/// (seconds since midnight) truncated to the minute.
pub fn parse_time_or(at: Option<&str>, default_second: u32) -> (r: Result<Time, String>)
    requires
        default_second < 86400,
    ensures
        match at {
            Some(s) => match parse_time(s@) {
                Some(t) => r == Ok::<Time, String>(t),
                None => r matches Err(e) && e@ == refusal_text("invalid time "@, s@, chrono_time_reason(s@)),
            },
            None => r == Ok::<Time, String>(truncated(default_second as int)),
        },
        r matches Ok(t) ==> t.wf(),
{
    match at {
        Some(s) => {
            let c = chars_of(s);
            match parse_time_chars(&c) {
                Some(t) => Ok(t),
                None => Err(time_refusal("invalid time ", &c)),
            }
        },
        None => Ok(truncate_to_minutes(default_second)),
    }
}

/// `parts` joined with `sep` between them (`slice::join`).
pub open spec fn join(parts: Seq<Seq<char>>, sep: Seq<char>) -> Seq<char>
    decreases parts.len(),
{
    if parts.len() == 0 {
        Seq::empty()
    } else if parts.len() == 1 {
        parts[0]
    } else {
        join(parts.drop_last(), sep) + sep + parts.last()
    }
}

/// Joins character sequences with a separator.
pub fn join_chars(parts: &Vec<Vec<char>>, sep: &[char]) -> (r: Vec<char>)
    ensures
        r@ == join(vv(parts@), sep@),
{
    let mut r: Vec<char> = Vec::new();
    let mut i: usize = 0;
    while i < parts.len()
        invariant
            i <= parts.len(),
            r@ == join(vv(parts@.take(i as int)), sep@),
        decreases parts.len() - i,
    {
        let ghost before = r@;
        if i > 0 {
            append_chars(&mut r, sep);
        }
        append_chars(&mut r, &parts[i]);
        assert(vv(parts@.take(i + 1)).drop_last() =~= vv(parts@.take(i as int)));
        assert(vv(parts@.take(i + 1)).last() == parts@[i as int]@);
        if i == 0 {
            assert(before =~= Seq::<char>::empty());
            assert(r@ =~= parts@[0]@);
        }
        i += 1;
    }
    assert(parts@.take(parts.len() as int) =~= parts@);
    r
}

/// What has been read of the start arguments: the metadata, the description
/// words, and whether the description has begun.
pub struct ArgsV {
    pub meta: MetaV,
    pub desc: Seq<Seq<char>>,
    pub in_desc: bool,
}

/// Whether an argument is a metadata token (`@`, `#` or `!` first).
pub open spec fn is_meta_token(a: Seq<char>) -> bool {
    a.len() > 0 && (a[0] == '@' || a[0] == '#' || a[0] == '!')
}

/// Reads one start argument: metadata until the first other word, then
/// everything is description.
pub open spec fn args_step(acc: Option<ArgsV>, a: Seq<char>) -> Option<ArgsV> {
    match acc {
        None => None,
        Some(st) => if st.in_desc {
            Some(ArgsV { desc: st.desc.push(a), ..st })
        } else if is_meta_token(a) {
            match meta_step(Some(st.meta), a) {
                Some(m) => Some(ArgsV { meta: m, ..st }),
                None => None,
            }
        } else {
            Some(ArgsV { desc: st.desc.push(a), in_desc: true, ..st })
        },
    }
}

/// Reads the start arguments from the left.
pub open spec fn args_scan(args: Seq<Seq<char>>) -> Option<ArgsV>
    decreases args.len(),
{
    if args.len() == 0 {
        Some(
            ArgsV {
                meta: MetaV { project: None, tags: Seq::empty(), energy: None },
                desc: Seq::empty(),
                in_desc: false,
            },
        )
    } else {
        args_step(args_scan(args.drop_last()), args.last())
    }
}

/// The message for the first start argument that is rejected.
pub open spec fn args_error(args: Seq<Seq<char>>) -> Seq<char>
    decreases args.len(),
{
    if args.len() == 0 {
        Seq::empty()
    } else {
        match args_scan(args.drop_last()) {
            None => args_error(args.drop_last()),
            Some(st) => token_error(st.meta, args.last()),
        }
    }
}

/// The message when the start arguments are refused.
pub open spec fn start_args_error(args: Seq<Seq<char>>) -> Seq<char> {
    match args_scan(args) {
        None => args_error(args),
        Some(_) => "missing @project (e.g., @focus) or use -p preset"@,
    }
}

/// Once an argument is rejected, the message stays that of the first.
proof fn lemma_args_error_stays(args: Seq<Seq<char>>, k: int)
    requires
        0 <= k <= args.len(),
        args_scan(args.take(k)) is None,
    ensures
        args_error(args) == args_error(args.take(k)),
    decreases args.len() - k,
{
    if k < args.len() {
        assert(args.take(k + 1).drop_last() =~= args.take(k));
        lemma_args_error_stays(args, k + 1);
    } else {
        assert(args.take(k) =~= args);
    }
}

/// `@project #tag... !N description...`: project, tags, energy, description.
pub open spec fn start_args(args: Seq<Seq<char>>) -> Option<
    (Seq<char>, Seq<Seq<char>>, Option<u8>, Seq<char>),
> {
    match args_scan(args) {
        Some(st) => match st.meta.project {
            Some(p) => Some((p, st.meta.tags, st.meta.energy, join(st.desc, seq![' ']))),
            None => None,
        },
        None => None,
    }
}

/// Once an argument is rejected, later arguments do not recover.
proof fn lemma_args_scan_stays_none(args: Seq<Seq<char>>, k: int)
    requires
        0 <= k <= args.len(),
        args_scan(args.take(k)) is None,
    ensures
        args_scan(args) is None,
    decreases args.len() - k,
{
    if k < args.len() {
        assert(args.take(k + 1).drop_last() =~= args.take(k));
        lemma_args_scan_stays_none(args, k + 1);
    } else {
        assert(args.take(k) =~= args);
    }
}

/// What the start arguments yield is valid.
pub proof fn lemma_args_scan_wf(args: Seq<Seq<char>>)
    ensures
        args_scan(args) matches Some(st) ==> {
            &&& (st.meta.project matches Some(p) ==> valid_name(p))
            &&& forall|i: int| 0 <= i < st.meta.tags.len() ==> valid_name(#[trigger] st.meta.tags[i])
            &&& valid_energy(st.meta.energy)
        },
    decreases args.len(),
{
    if args.len() > 0 {
        lemma_args_scan_wf(args.drop_last());
    }
}

/// The index of the first argument that is not a metadata token, or the
/// number of arguments when all are.
pub open spec fn first_plain(args: Seq<Seq<char>>) -> int
    decreases args.len(),
{
    if args.len() == 0 {
        0
    } else if first_plain(args.drop_last()) < args.len() - 1 {
        first_plain(args.drop_last())
    } else if is_meta_token(args.last()) {
        args.len() as int
    } else {
        args.len() - 1
    }
}

/// Whether an argument names the project (`@` first).
pub open spec fn is_at(a: Seq<char>) -> bool {
    a.len() > 0 && a[0] == '@'
}

/// Whether an argument names a tag (`#` first).
pub open spec fn is_hash(a: Seq<char>) -> bool {
    a.len() > 0 && a[0] == '#'
}

/// The `@` arguments, in order.
pub open spec fn at_args(args: Seq<Seq<char>>) -> Seq<Seq<char>>
    decreases args.len(),
{
    if args.len() == 0 {
        Seq::empty()
    } else {
        at_args(args.drop_last()) + if is_at(args.last()) {
            seq![args.last()]
        } else {
            Seq::empty()
        }
    }
}

/// The `#` arguments, in order.
pub open spec fn hash_args(args: Seq<Seq<char>>) -> Seq<Seq<char>>
    decreases args.len(),
{
    if args.len() == 0 {
        Seq::empty()
    } else {
        hash_args(args.drop_last()) + if is_hash(args.last()) {
            seq![args.last()]
        } else {
            Seq::empty()
        }
    }
}

/// What follows the sigil of each argument.
pub open spec fn rests(s: Seq<Seq<char>>) -> Seq<Seq<char>> {
    s.map_values(|a: Seq<char>| a.drop_first())
}

/// Every argument names a valid project or tag after its sigil.
pub open spec fn names_valid(s: Seq<Seq<char>>) -> bool {
    forall|i: int| 0 <= i < s.len() ==> valid_name((#[trigger] s[i]).drop_first())
}

/// The metadata tokens are acceptable: at most one project and one energy
/// level, valid names, a level from 1 to 5.
pub open spec fn meta_ok(pre: Seq<Seq<char>>) -> bool {
    &&& at_args(pre).len() <= 1
    &&& bang_args(pre).len() <= 1
    &&& names_valid(at_args(pre))
    &&& names_valid(hash_args(pre))
    &&& bangs_valid(bang_args(pre))
}

/// The energy level of the first `!` argument, if any.
pub open spec fn first_level(pre: Seq<Seq<char>>) -> Option<u8> {
    if bang_args(pre).len() == 0 {
        None
    } else {
        energy_level(bang_args(pre)[0].drop_first())
    }
}

proof fn lemma_first_plain_bounds(args: Seq<Seq<char>>)
    ensures
        0 <= first_plain(args) <= args.len(),
        forall|i: int| 0 <= i < first_plain(args) ==> is_meta_token(#[trigger] args[i]),
        first_plain(args) < args.len() ==> !is_meta_token(args[first_plain(args)]),
    decreases args.len(),
{
    if args.len() > 0 {
        let dl = args.drop_last();
        lemma_first_plain_bounds(dl);
        assert forall|i: int| 0 <= i < first_plain(args) implies is_meta_token(#[trigger] args[i]) by {
            if i < dl.len() {
                assert(args[i] == dl[i]);
            }
        }
        if first_plain(dl) < dl.len() {
            assert(args[first_plain(dl)] == dl[first_plain(dl)]);
        }
    }
}

proof fn lemma_meta_push(pre: Seq<Seq<char>>, a: Seq<char>)
    requires
        is_meta_token(a),
    ensures
        at_args(pre.push(a)) == at_args(pre) + if is_at(a) { seq![a] } else { Seq::<Seq<char>>::empty() },
        hash_args(pre.push(a)) == hash_args(pre) + if is_hash(a) { seq![a] } else { Seq::<Seq<char>>::empty() },
        bang_args(pre.push(a)) == bang_args(pre) + if is_bang(a) { seq![a] } else { Seq::<Seq<char>>::empty() },
{
    assert(pre.push(a).drop_last() =~= pre);
}

proof fn lemma_args_scan_tokens(args: Seq<Seq<char>>)
    ensures
        args_scan(args) is Some <==> meta_ok(args.take(first_plain(args))),
        args_scan(args) matches Some(st) ==> {
            let pre = args.take(first_plain(args));
            &&& st.meta.project == (if at_args(pre).len() == 0 {
                None
            } else {
                Some(at_args(pre)[0].drop_first())
            })
            &&& st.meta.tags == rests(hash_args(pre))
            &&& st.meta.energy == first_level(pre)
            &&& st.desc == args.skip(first_plain(args))
            &&& st.in_desc == (first_plain(args) < args.len())
        },
    decreases args.len(),
{
    lemma_first_plain_bounds(args);
    if args.len() == 0 {
        assert(args.take(0) =~= Seq::<Seq<char>>::empty());
        assert(rests(Seq::<Seq<char>>::empty()) =~= Seq::<Seq<char>>::empty());
        assert(args.skip(0) =~= Seq::<Seq<char>>::empty());
    } else {
        let dl = args.drop_last();
        let a = args.last();
        lemma_args_scan_tokens(dl);
        lemma_first_plain_bounds(dl);
        let k0 = first_plain(dl);
        if k0 < dl.len() {
            assert(args.take(k0) =~= dl.take(k0));
            assert(args.skip(k0) =~= dl.skip(k0).push(a));
        } else {
            assert(dl.take(k0) =~= dl);
            if is_meta_token(a) {
                let pre = args;
                assert(args.take(args.len() as int) =~= args);
                assert(args.skip(args.len() as int) =~= Seq::<Seq<char>>::empty());
                assert(dl.skip(k0) =~= Seq::<Seq<char>>::empty());
                assert(dl.push(a) =~= args);
                lemma_meta_push(dl, a);
                let ad = at_args(dl);
                let hd = hash_args(dl);
                let bd = bang_args(dl);
                if is_at(a) {
                    assert(at_args(args) =~= ad.push(a));
                    assert(hash_args(args) =~= hd);
                    assert(bang_args(args) =~= bd);
                    if args_scan(args) is Some {
                        assert(names_valid(at_args(args))) by {
                            assert forall|i: int| 0 <= i < at_args(args).len() implies valid_name(
                                (#[trigger] at_args(args)[i]).drop_first(),
                            ) by {
                                assert(i == 0);
                                assert(at_args(args)[0] == a);
                            }
                        }
                    }
                    if meta_ok(args) {
                        assert(at_args(args)[ad.len() as int] == a);
                        assert(ad.len() == 0);
                        assert(names_valid(ad));
                        assert(bangs_valid(bd));
                        assert(names_valid(hd));
                    }
                    if args_scan(dl) is Some && meta_ok(dl) && ad.len() == 1 {
                        assert(args_scan(dl)->0.meta.project is Some);
                    }
                } else if is_hash(a) {
                    assert(at_args(args) =~= ad);
                    assert(hash_args(args) =~= hd.push(a));
                    assert(bang_args(args) =~= bd);
                    assert(rests(hd.push(a)) =~= rests(hd).push(a.drop_first()));
                    if meta_ok(args) {
                        assert(hash_args(args)[hd.len() as int] == a);
                        assert(names_valid(hd)) by {
                            assert forall|i: int| 0 <= i < hd.len() implies valid_name((#[trigger] hd[i]).drop_first()) by {
                                assert(hash_args(args)[i] == hd[i]);
                            }
                        }
                    }
                    if args_scan(args) is Some {
                        assert forall|i: int| 0 <= i < hash_args(args).len() implies valid_name(
                            (#[trigger] hash_args(args)[i]).drop_first(),
                        ) by {
                            if i < hd.len() {
                                assert(hash_args(args)[i] == hd[i]);
                            }
                        }
                    }
                } else {
                    assert(is_bang(a));
                    assert(at_args(args) =~= ad);
                    assert(hash_args(args) =~= hd);
                    assert(bang_args(args) =~= bd.push(a));
                    if meta_ok(args) {
                        assert(bang_args(args)[bd.len() as int] == a);
                        assert(bd.len() == 0);
                        assert(bangs_valid(bd));
                    }
                    if args_scan(dl) is Some && meta_ok(dl) && bd.len() == 1 {
                        assert(energy_level(bd[0].drop_first()) is Some);
                    }
                    if args_scan(args) is Some {
                        assert forall|i: int| 0 <= i < bang_args(args).len() implies energy_level(
                            (#[trigger] bang_args(args)[i]).drop_first(),
                        ) is Some by {
                            assert(i == 0);
                            assert(bang_args(args)[0] == a);
                        }
                    }
                }
            } else {
                assert(first_plain(args) == dl.len());
                assert(args.take(dl.len() as int) =~= dl);
                assert(args.skip(dl.len() as int) =~= seq![a]);
                assert(dl.skip(k0) =~= Seq::<Seq<char>>::empty());
            }
        }
    }
}

/// The start arguments are read up to the first word that is not a
/// metadata token (`@`, `#` or `!` first). They are accepted exactly when
/// the tokens before it hold exactly one `@` project and at most one `!`
/// level, every project and tag name is valid and the level is 1 to 5. The
/// project, the tags in order and the level are those of the tokens; the
/// description is that word and everything after it, joined with single
/// spaces.
pub proof fn law_start_args_tokens(args: Seq<Seq<char>>)
    ensures
        ({
            let pre = args.take(first_plain(args));
            start_args(args) is Some <==> meta_ok(pre) && at_args(pre).len() == 1
        }),
        start_args(args) matches Some((p, t, e, d)) ==> {
            let pre = args.take(first_plain(args));
            &&& p == at_args(pre)[0].drop_first()
            &&& t == rests(hash_args(pre))
            &&& e == first_level(pre)
            &&& d == join(args.skip(first_plain(args)), seq![' '])
        },
{
    lemma_args_scan_tokens(args);
}

/// Parses `@project #tag... !N description...`: tokens with a sigil until the
/// first other word; that word and everything after it is the description,
/// joined with single spaces. Exactly one project is required.
pub fn parse_start_args(args: &[String]) -> (r: Result<(String, Vec<String>, Option<u8>, String), String>)
    ensures
        r is Ok <==> start_args(strs(args@)) is Some,
        r matches Ok((p, t, e, d)) ==> start_args(strs(args@)) == Some((p@, strs(t@), e, d@)),
        r matches Err(m) ==> m@ == start_args_error(strs(args@)),
{
    let ghost a = strs(args@);
    let mut meta = MetaAcc { project: None, tags: Vec::new(), energy: None };
    let mut desc: Vec<Vec<char>> = Vec::new();
    let mut in_desc = false;
    assert(meta.view().tags =~= Seq::<Seq<char>>::empty());
    assert(vv(desc@) =~= Seq::<Seq<char>>::empty());
    let mut i: usize = 0;
    while i < args.len()
        invariant
            a == strs(args@),
            i <= args.len(),
            args_scan(a.take(i as int)) == Some(
                ArgsV { meta: meta.view(), desc: vv(desc@), in_desc: in_desc },
            ),
        decreases args.len() - i,
    {
        assert(a.take(i + 1).drop_last() =~= a.take(i as int));
        assert(a.take(i + 1).last() == args@[i as int]@);
        let arg = chars_of(args[i].as_str());
        if in_desc {
            let ghost d0 = desc@;
            desc.push(arg);
            assert(vv(desc@) =~= vv(d0).push(args@[i as int]@));
        } else if arg.len() > 0 && (arg[0] == '@' || arg[0] == '#' || arg[0] == '!') {
            let res = meta_token(&mut meta, &arg);
            if res.is_err() {
                proof {
                    lemma_args_scan_stays_none(a, i as int + 1);
                    lemma_args_error_stays(a, i as int + 1);
                }
                return Err(res.unwrap_err());
            }
        } else {
            let ghost d0 = desc@;
            desc.push(arg);
            in_desc = true;
            assert(vv(desc@) =~= vv(d0).push(args@[i as int]@));
        }
        i += 1;
    }
    assert(a.take(args.len() as int) =~= a);
    let project = match meta.project {
        Some(p) => string_of(&p),
        None => {
            return Err(crate::text::owned("missing @project (e.g., @focus) or use -p preset"));
        },
    };
    let tags = strings_of(&meta.tags);
    let sep = vec![' '];
    assert(sep@ =~= seq![' ']);
    let d = join_chars(&desc, &sep);
    Ok((project, tags, meta.energy, string_of(&d)))
}

/// What has been read of the arguments after a preset: energy and description words.
pub open spec fn energy_desc_step(acc: Option<(Option<u8>, Seq<Seq<char>>)>, a: Seq<char>) -> Option<
    (Option<u8>, Seq<Seq<char>>),
> {
    match acc {
        None => None,
        Some((e, d)) => if a.len() > 0 && a[0] == '!' {
            if e is None && energy_level(a.drop_first()) is Some {
                Some((energy_level(a.drop_first()), d))
            } else {
                None
            }
        } else {
            Some((e, d.push(a)))
        },
    }
}

/// Reads the arguments after a preset from the left.
pub open spec fn energy_desc_scan(args: Seq<Seq<char>>) -> Option<(Option<u8>, Seq<Seq<char>>)>
    decreases args.len(),
{
    if args.len() == 0 {
        Some((None, Seq::empty()))
    } else {
        energy_desc_step(energy_desc_scan(args.drop_last()), args.last())
    }
}

/// The message for the first argument after a preset that is rejected.
pub open spec fn energy_desc_error(args: Seq<Seq<char>>) -> Seq<char>
    decreases args.len(),
{
    if args.len() == 0 {
        Seq::empty()
    } else {
        match energy_desc_scan(args.drop_last()) {
            None => energy_desc_error(args.drop_last()),
            Some((e, _)) => energy_error(args.last().drop_first(), e is Some),
        }
    }
}

proof fn lemma_energy_desc_error_stays(args: Seq<Seq<char>>, k: int)
    requires
        0 <= k <= args.len(),
        energy_desc_scan(args.take(k)) is None,
    ensures
        energy_desc_error(args) == energy_desc_error(args.take(k)),
    decreases args.len() - k,
{
    if k < args.len() {
        assert(args.take(k + 1).drop_last() =~= args.take(k));
        lemma_energy_desc_error_stays(args, k + 1);
    } else {
        assert(args.take(k) =~= args);
    }
}

/// `!N` anywhere sets the energy (at most once); every other word is description.
pub open spec fn energy_and_desc(args: Seq<Seq<char>>) -> Option<(Option<u8>, Seq<char>)> {
    match energy_desc_scan(args) {
        Some((e, d)) => Some((e, join(d, seq![' ']))),
        None => None,
    }
}

proof fn lemma_energy_desc_stays_none(args: Seq<Seq<char>>, k: int)
    requires
        0 <= k <= args.len(),
        energy_desc_scan(args.take(k)) is None,
    ensures
        energy_desc_scan(args) is None,
    decreases args.len() - k,
{
    if k < args.len() {
        assert(args.take(k + 1).drop_last() =~= args.take(k));
        lemma_energy_desc_stays_none(args, k + 1);
    } else {
        assert(args.take(k) =~= args);
    }
}

/// Whether an argument sets the energy (`!` first).
pub open spec fn is_bang(a: Seq<char>) -> bool {
    a.len() > 0 && a[0] == '!'
}

/// The `!` arguments, in order.
pub open spec fn bang_args(args: Seq<Seq<char>>) -> Seq<Seq<char>>
    decreases args.len(),
{
    if args.len() == 0 {
        Seq::empty()
    } else {
        bang_args(args.drop_last()) + if is_bang(args.last()) {
            seq![args.last()]
        } else {
            Seq::empty()
        }
    }
}

/// The arguments other than the `!` ones, in order.
pub open spec fn plain_args(args: Seq<Seq<char>>) -> Seq<Seq<char>>
    decreases args.len(),
{
    if args.len() == 0 {
        Seq::empty()
    } else {
        plain_args(args.drop_last()) + if is_bang(args.last()) {
            Seq::empty()
        } else {
            seq![args.last()]
        }
    }
}

/// Every `!` argument names a level from 1 to 5.
pub open spec fn bangs_valid(b: Seq<Seq<char>>) -> bool {
    forall|i: int| 0 <= i < b.len() ==> energy_level((#[trigger] b[i]).drop_first()) is Some
}

proof fn lemma_energy_desc_scan_tokens(args: Seq<Seq<char>>)
    ensures
        energy_desc_scan(args) is Some <==> bang_args(args).len() <= 1 && bangs_valid(bang_args(args)),
        energy_desc_scan(args) matches Some((e, d)) ==> d == plain_args(args) && e == (if bang_args(
            args,
        ).len() == 0 {
            None
        } else {
            energy_level(bang_args(args)[0].drop_first())
        }),
    decreases args.len(),
{
    if args.len() > 0 {
        let dl = args.drop_last();
        let a = args.last();
        lemma_energy_desc_scan_tokens(dl);
        let b0 = bang_args(dl);
        if is_bang(a) {
            let b1 = bang_args(args);
            assert(b1 =~= b0.push(a));
            if b0.len() == 1 && energy_desc_scan(dl) is Some {
                assert(energy_level(b0[0].drop_first()) is Some);
            }
            if b1.len() <= 1 && bangs_valid(b1) {
                assert(b1[b1.len() - 1] == a);
                assert(energy_level(a.drop_first()) is Some);
            }
            if energy_desc_scan(args) is Some {
                assert forall|i: int| 0 <= i < b1.len() implies energy_level((#[trigger] b1[i]).drop_first()) is Some by {
                    assert(i == 0);
                    assert(b1[0] == a);
                }
            }
            assert(plain_args(args) =~= plain_args(dl));
        } else {
            assert(bang_args(args) =~= b0);
            assert(plain_args(args) =~= plain_args(dl).push(a));
        }
    }
}

/// The arguments after a preset are accepted exactly when at most one of
/// them starts with `!` and its rest is a level from 1 to 5; the level is
/// that one's (none without one), and the description is every other
/// argument, in order, joined with single spaces.
pub proof fn law_energy_and_desc_tokens(args: Seq<Seq<char>>)
    ensures
        energy_and_desc(args) is Some <==> bang_args(args).len() <= 1 && bangs_valid(bang_args(args)),
        energy_and_desc(args) matches Some((e, d)) ==> d == join(plain_args(args), seq![' ']) && e == (
        if bang_args(args).len() == 0 {
            None
        } else {
            energy_level(bang_args(args)[0].drop_first())
        }),
{
    lemma_energy_desc_scan_tokens(args);
}

/// Parses the arguments that follow a preset: an optional `!N` energy level
/// (at most one, 1 to 5) and description words joined with single spaces.
pub fn parse_energy_and_desc(args: &[String]) -> (r: Result<(Option<u8>, String), String>)
    ensures
        r is Ok <==> energy_and_desc(strs(args@)) is Some,
        r matches Ok((e, d)) ==> energy_and_desc(strs(args@)) == Some((e, d@)),
        r matches Err(m) ==> m@ == energy_desc_error(strs(args@)),
{
    let ghost a = strs(args@);
    let mut energy: Option<u8> = None;
    let mut desc: Vec<Vec<char>> = Vec::new();
    assert(vv(desc@) =~= Seq::<Seq<char>>::empty());
    let mut i: usize = 0;
    while i < args.len()
        invariant
            a == strs(args@),
            i <= args.len(),
            energy_desc_scan(a.take(i as int)) == Some((energy, vv(desc@))),
        decreases args.len() - i,
    {
        assert(a.take(i + 1).drop_last() =~= a.take(i as int));
        assert(a.take(i + 1).last() == args@[i as int]@);
        let arg = chars_of(args[i].as_str());
        if arg.len() > 0 && arg[0] == '!' {
            let e = crate::text::slice_of(&arg, 1, arg.len());
            assert(e@ =~= arg@.drop_first());
            match energy_token(&e, energy.is_some()) {
                Ok(level) => {
                    energy = Some(level);
                },
                Err(msg) => {
                    proof {
                        lemma_energy_desc_stays_none(a, i as int + 1);
                        lemma_energy_desc_error_stays(a, i as int + 1);
                    }
                    return Err(msg);
                },
            }
        } else {
            let ghost d0 = desc@;
            desc.push(arg);
            assert(vv(desc@) =~= vv(d0).push(args@[i as int]@));
        }
        i += 1;
    }
    assert(a.take(args.len() as int) =~= a);
    let sep = vec![' '];
    assert(sep@ =~= seq![' ']);
    let d = join_chars(&desc, &sep);
    Ok((energy, string_of(&d)))
}

} // verus!
