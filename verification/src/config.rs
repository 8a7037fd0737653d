//! Configuration: data directory, sync settings, presets, report groups.
use vstd::prelude::*;

use crate::interval::{name_error, strs, valid_name, validate_name_chars, vv};
use crate::order::{sort_chars, str_le};
use crate::parse::{join, join_chars};
use crate::text::{append_chars, append_str, chars_eq, chars_of, slice_of, string_of};

verus! {

/// A named shortcut for a project and tags.
#[derive(Debug, Clone)]
pub struct Preset {
    pub project: String,
    pub tags: Vec<String>,
}

/// The configuration. Presets and report groups are name/value pairs with
/// distinct names (see [`Config::wf`]).
#[derive(Debug)]
pub struct Config {
    pub data_dir: Option<String>,
    pub sync: Option<String>,
    pub auto_commit: Option<bool>,
    pub auto_push: Option<bool>,
    pub presets: Vec<(String, Preset)>,
    pub report_groups: Vec<(String, Vec<String>)>,
    pub highlight_tags: Option<Vec<String>>,
}

/// What the environment tells about where files live: the home directory and
/// the XDG base directories, when set.
pub struct Env {
    pub home: Option<String>,
    pub xdg_config_home: Option<String>,
    pub xdg_data_home: Option<String>,
}

/// The names of the presets.
pub open spec fn preset_keys(ps: Seq<(String, Preset)>) -> Seq<Seq<char>> {
    ps.map_values(|e: (String, Preset)| e.0@)
}

/// The names of the report groups.
pub open spec fn group_keys(gs: Seq<(String, Vec<String>)>) -> Seq<Seq<char>> {
    gs.map_values(|e: (String, Vec<String>)| e.0@)
}

/// No name occurs twice.
pub open spec fn distinct(keys: Seq<Seq<char>>) -> bool {
    forall|i: int, j: int| 0 <= i < j < keys.len() ==> keys[i] != keys[j]
}

impl Config {
    /// Preset names and report group names are each distinct, as in a map.
    pub open spec fn wf(&self) -> bool {
        distinct(preset_keys(self.presets@)) && distinct(group_keys(self.report_groups@))
    }
}

impl Default for Config {
    fn default() -> (c: Config)
        ensures
            c.data_dir is None,
            c.sync is None,
            c.auto_commit is None,
            c.auto_push is None,
            c.presets@.len() == 0,
            c.report_groups@.len() == 0,
            c.highlight_tags is None,
    {
        Config {
            data_dir: None,
            sync: None,
            auto_commit: None,
            auto_push: None,
            presets: Vec::new(),
            report_groups: Vec::new(),
            highlight_tags: None,
        }
    }
}

// ---------------------------------------------------------------------------
// Paths
// ---------------------------------------------------------------------------

/// `Path::join` on Unix: an absolute `rest` replaces `base`; otherwise a `/`
/// is put between them unless `base` is empty or already ends in one.
pub open spec fn path_join(base: Seq<char>, rest: Seq<char>) -> Seq<char> {
    if rest.len() > 0 && rest[0] == '/' {
        rest
    } else if base.len() > 0 && base.last() != '/' {
        base + seq!['/'] + rest
    } else {
        base + rest
    }
}

/// `Path::join` on Unix.
pub fn join_path(base: &[char], rest: &str) -> (r: Vec<char>)
    ensures
        r@ == path_join(base@, rest@),
{
    let rv = chars_of(rest);
    if rv.len() > 0 && rv[0] == '/' {
        return rv;
    }
    let mut r = slice_of(base, 0, base.len());
    assert(base@.subrange(0, base.len() as int) =~= base@);
    if base.len() > 0 && base[base.len() - 1] != '/' {
        r.push('/');
    }
    append_chars(&mut r, &rv);
    r
}

/// The message when no home directory is known.
pub open spec fn no_home_msg() -> Seq<char> {
    "home directory is unavailable; set XDG_CONFIG_HOME and XDG_DATA_HOME explicitly"@
}

/// The configuration directory: `$XDG_CONFIG_HOME/teum`, else `~/.config/teum`.
pub open spec fn config_dir_spec(env: Env) -> Option<Seq<char>> {
    match env.xdg_config_home {
        Some(x) => Some(path_join(x@, "teum"@)),
        None => match env.home {
            Some(h) => Some(path_join(path_join(h@, ".config"@), "teum"@)),
            None => None,
        },
    }
}

/// The default data directory: `$XDG_DATA_HOME/teum`, else `~/.local/share/teum`.
pub open spec fn default_data_dir_spec(env: Env) -> Option<Seq<char>> {
    match env.xdg_data_home {
        Some(x) => Some(path_join(x@, "teum"@)),
        None => match env.home {
            Some(h) => Some(
                path_join(path_join(path_join(h@, ".local"@), "share"@), "teum"@),
            ),
            None => None,
        },
    }
}

/// `~/rest` expanded to the home directory; other paths unchanged.
pub open spec fn expand_spec(s: Seq<char>, env: Env) -> Option<Seq<char>> {
    if s.len() >= 2 && s[0] == '~' && s[1] == '/' {
        match env.home {
            Some(h) => Some(path_join(h@, s.subrange(2, s.len() as int))),
            None => None,
        }
    } else {
        Some(s)
    }
}

/// The configuration directory.
pub fn config_dir(env: &Env) -> (r: Result<String, String>)
    ensures
        match config_dir_spec(*env) {
            Some(p) => r matches Ok(x) && x@ == p,
            None => r matches Err(e) && e@ == no_home_msg(),
        },
{
    match &env.xdg_config_home {
        Some(x) => {
            let b = chars_of(x.as_str());
            Ok(string_of(&join_path(&b, "teum")))
        },
        None => match &env.home {
            Some(h) => {
                let b = chars_of(h.as_str());
                let c = join_path(&b, ".config");
                Ok(string_of(&join_path(&c, "teum")))
            },
            None => Err(no_home()),
        },
    }
}

fn no_home() -> (r: String)
    ensures
        r@ == no_home_msg(),
{
    let mut v: Vec<char> = Vec::new();
    append_str(&mut v, "home directory is unavailable; set XDG_CONFIG_HOME and XDG_DATA_HOME explicitly");
    string_of(&v)
}

/// A file in the configuration directory.
fn config_file(env: &Env, name: &str) -> (r: Result<String, String>)
    ensures
        match config_dir_spec(*env) {
            Some(p) => r matches Ok(x) && x@ == path_join(p, name@),
            None => r matches Err(e) && e@ == no_home_msg(),
        },
{
    let d = config_dir(env)?;
    let dv = chars_of(d.as_str());
    Ok(string_of(&join_path(&dv, name)))
}

/// The configuration file, `config.toml` in the configuration directory.
pub fn config_path(env: &Env) -> (r: Result<String, String>)
    ensures
        match config_dir_spec(*env) {
            Some(p) => r matches Ok(x) && x@ == path_join(p, "config.toml"@),
            None => r matches Err(e) && e@ == no_home_msg(),
        },
{
    config_file(env, "config.toml")
}

/// The default data directory.
pub fn default_data_dir(env: &Env) -> (r: Result<String, String>)
    ensures
        match default_data_dir_spec(*env) {
            Some(p) => r matches Ok(x) && x@ == p,
            None => r matches Err(e) && e@ == no_home_msg(),
        },
{
    match &env.xdg_data_home {
        Some(x) => {
            let b = chars_of(x.as_str());
            Ok(string_of(&join_path(&b, "teum")))
        },
        None => match &env.home {
            Some(h) => {
                let b = chars_of(h.as_str());
                let l = join_path(&b, ".local");
                let s = join_path(&l, "share");
                Ok(string_of(&join_path(&s, "teum")))
            },
            None => Err(no_home()),
        },
    }
}

/// Expands a leading `~/` to the home directory.
pub fn shellexpand(s: &str, env: &Env) -> (r: Result<String, String>)
    ensures
        match expand_spec(s@, *env) {
            Some(p) => r matches Ok(x) && x@ == p,
            None => r matches Err(e) && e@ == no_home_msg(),
        },
{
    let v = chars_of(s);
    if v.len() >= 2 && v[0] == '~' && v[1] == '/' {
        match &env.home {
            Some(h) => {
                let hv = chars_of(h.as_str());
                let rest = slice_of(&v, 2, v.len());
                let rs = string_of(&rest);
                Ok(string_of(&join_path(&hv, rs.as_str())))
            },
            None => Err(no_home()),
        }
    } else {
        Ok(s.to_string())
    }
}

impl Config {
    /// The data directory: the configured one with `~/` expanded, or the default.
    pub fn data_dir(&self, env: &Env) -> (r: Result<String, String>)
        ensures
            match (match self.data_dir {
                Some(d) => expand_spec(d@, *env),
                None => default_data_dir_spec(*env),
            }) {
                Some(p) => r matches Ok(x) && x@ == p,
                None => r matches Err(e) && e@ == no_home_msg(),
            },
    {
        match &self.data_dir {
            Some(d) => shellexpand(d.as_str(), env),
            None => default_data_dir(env),
        }
    }

    /// The machine-local runtime state file, `current.json` next to the
    /// configuration (not in the data directory, which may be synced).
    pub fn state_path(&self, env: &Env) -> (r: Result<String, String>)
        ensures
            match config_dir_spec(*env) {
                Some(p) => r matches Ok(x) && x@ == path_join(p, "current.json"@),
                None => r matches Err(e) && e@ == no_home_msg(),
            },
    {
        config_file(env, "current.json")
    }

    /// The default HTML report file, `report.html` next to the configuration.
    pub fn report_path(&self, env: &Env) -> (r: Result<String, String>)
        ensures
            match config_dir_spec(*env) {
                Some(p) => r matches Ok(x) && x@ == path_join(p, "report.html"@),
                None => r matches Err(e) && e@ == no_home_msg(),
            },
    {
        config_file(env, "report.html")
    }

    /// The tags that mark an entry as highlighted: the configured ones, or
    /// `highlight` alone.
    pub fn highlight_tags(&self) -> (r: Vec<String>)
        ensures
            strs(r@) == match self.highlight_tags {
                Some(t) => strs(t@),
                None => seq!["highlight"@],
            },
    {
        match &self.highlight_tags {
            Some(tags) => copy_strings(tags),
            None => {
                let mut v: Vec<String> = Vec::new();
                v.push("highlight".to_string());
                proof {
                    vstd::string::to_string_from_display_ensures_for_str("highlight", v@[0]);
                }
                assert(strs(v@) =~= seq!["highlight"@]);
                v
            },
        }
    }
}

/// A copy of a list of strings.
pub fn copy_strings(v: &Vec<String>) -> (r: Vec<String>)
    ensures
        strs(r@) == strs(v@),
{
    let mut r: Vec<String> = Vec::new();
    let mut i: usize = 0;
    while i < v.len()
        invariant
            i <= v.len(),
            strs(r@) == strs(v@.take(i as int)),
        decreases v.len() - i,
    {
        let s = v[i].clone();
        let ghost r0 = r@;
        r.push(s);
        assert(strs(r@) =~= strs(r0).push(v@[i as int]@));
        assert(strs(v@.take(i + 1)) =~= strs(v@.take(i as int)).push(v@[i as int]@));
        i += 1;
    }
    assert(v@.take(v.len() as int) =~= v@);
    r
}

// ---------------------------------------------------------------------------
// Presets
// ---------------------------------------------------------------------------

/// `k` starts with `p` (`str::starts_with`).
pub open spec fn is_prefix(p: Seq<char>, k: Seq<char>) -> bool {
    p.len() <= k.len() && k.subrange(0, p.len() as int) == p
}

/// The first position of `name` among `keys`.
pub open spec fn first_exact(keys: Seq<Seq<char>>, name: Seq<char>) -> Option<int>
    decreases keys.len(),
{
    if keys.len() == 0 {
        None
    } else {
        match first_exact(keys.drop_last(), name) {
            Some(i) => Some(i),
            None => if keys.last() == name {
                Some(keys.len() - 1)
            } else {
                None
            },
        }
    }
}

/// The positions of the keys that start with `name`, in order.
pub open spec fn prefix_positions(keys: Seq<Seq<char>>, name: Seq<char>) -> Seq<int>
    decreases keys.len(),
{
    if keys.len() == 0 {
        Seq::empty()
    } else {
        let r = prefix_positions(keys.drop_last(), name);
        if is_prefix(name, keys.last()) {
            r.push(keys.len() - 1)
        } else {
            r
        }
    }
}

/// Which preset a name selects: an exact name first, else the only preset
/// whose name starts with it; otherwise the error message.
pub open spec fn resolve_preset_spec(keys: Seq<Seq<char>>, name: Seq<char>) -> Result<int, Seq<char>> {
    match first_exact(keys, name) {
        Some(i) => Ok(i),
        None => {
            let m = prefix_positions(keys, name);
            if m.len() == 0 {
                Err("unknown preset '"@ + name + "'"@)
            } else if m.len() == 1 {
                Ok(m[0])
            } else {
                Err(
                    "ambiguous preset '"@ + name + "': matches "@ + join(
                        m.map_values(|i: int| keys[i]).sort_by(str_le()),
                        ", "@,
                    ),
                )
            }
        },
    }
}

/// Whether `k` starts with `p`.
fn starts_with(k: &[char], p: &[char]) -> (r: bool)
    ensures
        r == is_prefix(p@, k@),
{
    if p.len() > k.len() {
        return false;
    }
    let head = slice_of(k, 0, p.len());
    chars_eq(&head, p)
}

impl Config {
    /// The preset `name` selects: the preset of that exact name, else the one
    /// preset whose name starts with `name`. Unknown and ambiguous names are
    /// errors; the ambiguous one lists the candidates in order.
    pub fn resolve_preset(&self, name: &str) -> (r: Result<&Preset, String>)
        ensures
            match resolve_preset_spec(preset_keys(self.presets@), name@) {
                Ok(i) => r matches Ok(p) && 0 <= i < self.presets@.len() && *p == self.presets@[i].1,
                Err(msg) => r matches Err(e) && e@ == msg,
            },
    {
        let nv = chars_of(name);
        let ghost keys = preset_keys(self.presets@);
        let mut i: usize = 0;
        let mut matches: Vec<usize> = Vec::new();
        let mut names: Vec<Vec<char>> = Vec::new();
        let mut exact: Option<usize> = None;
        assert(keys.take(0) =~= Seq::<Seq<char>>::empty());
        while i < self.presets.len()
            invariant
                keys == preset_keys(self.presets@),
                i <= self.presets.len(),
                nv@ == name@,
                exact is None ==> first_exact(keys.take(i as int), name@) is None,
                exact matches Some(k) ==> first_exact(keys, name@) == Some(k as int) && k < self.presets.len(),
                exact is None ==> matches@.map_values(|k: usize| k as int) == prefix_positions(keys.take(i as int), name@),
                exact is None ==> matches@.len() == names@.len(),
                exact is None ==> forall|j: int| 0 <= j < names@.len() ==> #[trigger] names@[j]@ == keys[matches@[j] as int],
                exact is None ==> forall|j: int| 0 <= j < matches@.len() ==> #[trigger] matches@[j] < i,
            decreases self.presets.len() - i,
        {
            assert(keys.take(i + 1).drop_last() =~= keys.take(i as int));
            assert(keys.take(i + 1).last() == self.presets@[i as int].0@);
            let k = chars_of(self.presets[i].0.as_str());
            if exact.is_none() {
                if chars_eq(&k, &nv) {
                    exact = Some(i);
                    proof {
                        lemma_first_exact_prefix(keys, name@, i as int + 1);
                    }
                } else if starts_with(&k, &nv) {
                    let ghost m0 = matches@;
                    matches.push(i);
                    names.push(k);
                    assert(matches@.map_values(|k: usize| k as int) =~= m0.map_values(|k: usize| k as int).push(i as int));
                }
            }
            i += 1;
        }
        assert(keys.take(self.presets.len() as int) =~= keys);
        if let Some(k) = exact {
            return Ok(&self.presets[k].1);
        }
        let ghost m = prefix_positions(keys, name@);
        if matches.len() == 0 {
            return Err(crate::interval::msg3("unknown preset '", &nv, "'"));
        }
        if matches.len() == 1 {
            assert(m[0] == matches@[0] as int);
            return Ok(&self.presets[matches[0]].1);
        }
        assert(vv(names@) =~= m.map_values(|i: int| keys[i]));
        let sorted = sort_chars(&names);
        let sep = chars_of(", ");
        let joined = join_chars(&sorted, &sep);
        let mut v: Vec<char> = Vec::new();
        append_str(&mut v, "ambiguous preset '");
        append_chars(&mut v, &nv);
        append_str(&mut v, "': matches ");
        append_chars(&mut v, &joined);
        Err(string_of(&v))
    }
}

impl Config {
    /// The projects of the report group `name`, if it is configured.
    pub fn report_group(&self, name: &str) -> (r: Option<&Vec<String>>)
        ensures
            match first_exact(group_keys(self.report_groups@), name@) {
                Some(i) => r matches Some(g) && 0 <= i < self.report_groups@.len() && *g
                    == self.report_groups@[i].1,
                None => r is None,
            },
    {
        let nv = chars_of(name);
        let ghost keys = group_keys(self.report_groups@);
        let mut i: usize = 0;
        assert(keys.take(0) =~= Seq::<Seq<char>>::empty());
        while i < self.report_groups.len()
            invariant
                keys == group_keys(self.report_groups@),
                i <= self.report_groups.len(),
                nv@ == name@,
                first_exact(keys.take(i as int), name@) is None,
            decreases self.report_groups.len() - i,
        {
            assert(keys.take(i + 1).drop_last() =~= keys.take(i as int));
            assert(keys.take(i + 1).last() == self.report_groups@[i as int].0@);
            let k = chars_of(self.report_groups[i].0.as_str());
            if chars_eq(&k, &nv) {
                proof {
                    lemma_first_exact_prefix(keys, name@, i as int + 1);
                }
                return Some(&self.report_groups[i].1);
            }
            i += 1;
        }
        assert(keys.take(self.report_groups.len() as int) =~= keys);
        None
    }
}

/// A match found among the first keys stays the first match.
pub proof fn lemma_first_exact_prefix(keys: Seq<Seq<char>>, name: Seq<char>, k: int)
    requires
        0 <= k <= keys.len(),
        first_exact(keys.take(k), name) is Some,
    ensures
        first_exact(keys, name) == first_exact(keys.take(k), name),
    decreases keys.len() - k,
{
    if k < keys.len() {
        assert(keys.take(k + 1).drop_last() =~= keys.take(k));
        lemma_first_exact_prefix(keys, name, k + 1);
    } else {
        assert(keys.take(k) =~= keys);
    }
}

// ---------------------------------------------------------------------------
// Validation
// ---------------------------------------------------------------------------

/// A sync method the configuration accepts.
pub open spec fn valid_sync(s: Option<String>) -> bool {
    s matches Some(x) ==> (x@ == "none"@ || x@ == "git"@)
}

/// Every name in the list is valid.
pub open spec fn all_valid(names: Seq<Seq<char>>) -> bool {
    forall|i: int| 0 <= i < names.len() ==> valid_name(#[trigger] names[i])
}

/// A preset names a valid project and valid tags.
pub open spec fn valid_preset(p: Preset) -> bool {
    valid_name(p.project@) && all_valid(strs(p.tags@))
}

/// The position of the first invalid name (when there is one).
pub open spec fn first_invalid(names: Seq<Seq<char>>) -> int
    decreases names.len(),
{
    if names.len() == 0 {
        0
    } else if !all_valid(names.drop_last()) {
        first_invalid(names.drop_last())
    } else {
        names.len() - 1
    }
}

/// Every preset is valid.
pub open spec fn all_presets_valid(ps: Seq<(String, Preset)>) -> bool {
    forall|i: int| 0 <= i < ps.len() ==> valid_preset(#[trigger] ps[i].1)
}

/// The position of the first invalid preset (when there is one).
pub open spec fn first_invalid_preset(ps: Seq<(String, Preset)>) -> int
    decreases ps.len(),
{
    if ps.len() == 0 {
        0
    } else if !all_presets_valid(ps.drop_last()) {
        first_invalid_preset(ps.drop_last())
    } else {
        ps.len() - 1
    }
}

/// The message for an invalid preset.
pub open spec fn preset_error(name: Seq<char>, p: Preset) -> Seq<char> {
    "preset '"@ + name + "': "@ + if !valid_name(p.project@) {
        name_error(p.project@, "project"@)
    } else {
        name_error(strs(p.tags@)[first_invalid(strs(p.tags@))], "tag"@)
    }
}

/// The message for a configuration that is not valid: the sync method first,
/// then the first invalid preset, then the first invalid highlight tag.
pub open spec fn config_error(c: &Config) -> Seq<char> {
    if !valid_sync(c.sync) {
        "invalid sync method '"@ + c.sync->0@ + "' (use 'none' or 'git')"@
    } else if !all_presets_valid(c.presets@) {
        let i = first_invalid_preset(c.presets@);
        preset_error(c.presets@[i].0@, c.presets@[i].1)
    } else {
        let t = strs(c.highlight_tags->0@);
        "highlight_tags: "@ + name_error(t[first_invalid(t)], "tag"@)
    }
}

proof fn lemma_first_invalid_at(names: Seq<Seq<char>>, k: int)
    requires
        0 <= k < names.len(),
        forall|j: int| 0 <= j < k ==> valid_name(#[trigger] names[j]),
        !valid_name(names[k]),
    ensures
        first_invalid(names) == k,
    decreases names.len(),
{
    if k < names.len() - 1 {
        assert(names.drop_last()[k] == names[k]);
        lemma_first_invalid_at(names.drop_last(), k);
        assert(!all_valid(names.drop_last()));
    } else {
        assert forall|j: int| 0 <= j < names.drop_last().len() implies valid_name(#[trigger] names.drop_last()[j]) by {
            assert(names.drop_last()[j] == names[j]);
        }
    }
}

proof fn lemma_first_invalid_preset_at(ps: Seq<(String, Preset)>, k: int)
    requires
        0 <= k < ps.len(),
        forall|j: int| 0 <= j < k ==> valid_preset(#[trigger] ps[j].1),
        !valid_preset(ps[k].1),
    ensures
        first_invalid_preset(ps) == k,
    decreases ps.len(),
{
    if k < ps.len() - 1 {
        assert(ps.drop_last()[k] == ps[k]);
        lemma_first_invalid_preset_at(ps.drop_last(), k);
        assert(!all_presets_valid(ps.drop_last()));
    } else {
        assert forall|j: int| 0 <= j < ps.drop_last().len() implies valid_preset(#[trigger] ps.drop_last()[j].1) by {
            assert(ps.drop_last()[j] == ps[j]);
        }
    }
}

impl Config {
    /// The configuration is acceptable: a known sync method, and valid names
    /// in the presets and highlight tags.
    pub open spec fn valid(&self) -> bool {
        &&& valid_sync(self.sync)
        &&& forall|i: int| 0 <= i < self.presets@.len() ==> valid_preset(#[trigger] self.presets@[i].1)
        &&& (self.highlight_tags matches Some(t) ==> all_valid(strs(t@)))
    }

    /// Checks the configuration: the sync method is `none` or `git`, and every
    /// preset project and tag and every highlight tag is a valid name.
    pub fn validate(&self) -> (r: Result<(), String>)
        ensures
            r is Ok <==> self.valid(),
            r matches Err(e) ==> e@ == config_error(self),
    {
        if let Some(sync) = &self.sync {
            let sv = chars_of(sync.as_str());
            if !chars_eq(&sv, &chars_of("none")) && !chars_eq(&sv, &chars_of("git")) {
                return Err(crate::interval::msg3("invalid sync method '", &sv, "' (use 'none' or 'git')"));
            }
        }
        let mut i: usize = 0;
        while i < self.presets.len()
            invariant
                i <= self.presets.len(),
                valid_sync(self.sync),
                forall|j: int| 0 <= j < i ==> valid_preset(#[trigger] self.presets@[j].1),
            decreases self.presets.len() - i,
        {
            let name = chars_of(self.presets[i].0.as_str());
            let preset = &self.presets[i].1;
            let pv = chars_of(preset.project.as_str());
            if let Err(e) = validate_name_chars(&pv, "project") {
                assert(!valid_preset(self.presets@[i as int].1));
                proof {
                    lemma_first_invalid_preset_at(self.presets@, i as int);
                }
                return Err(prefixed("preset '", &name, "': ", e));
            }
            let mut j: usize = 0;
            while j < preset.tags.len()
                invariant
                    i < self.presets.len(),
                    *preset == self.presets@[i as int].1,
                    valid_sync(self.sync),
                    forall|k: int| 0 <= k < i ==> valid_preset(#[trigger] self.presets@[k].1),
                    valid_name(preset.project@),
                    name@ == self.presets@[i as int].0@,
                    j <= preset.tags.len(),
                    forall|k: int| 0 <= k < j ==> valid_name(#[trigger] strs(preset.tags@)[k]),
                decreases preset.tags.len() - j,
            {
                let tv = chars_of(preset.tags[j].as_str());
                if let Err(e) = validate_name_chars(&tv, "tag") {
                    assert(!valid_name(strs(preset.tags@)[j as int]));
                    assert(!valid_preset(self.presets@[i as int].1));
                    proof {
                        lemma_first_invalid_preset_at(self.presets@, i as int);
                        lemma_first_invalid_at(strs(preset.tags@), j as int);
                    }
                    return Err(prefixed("preset '", &name, "': ", e));
                }
                j += 1;
            }
            assert(all_valid(strs(preset.tags@)));
            i += 1;
        }
        if let Some(tags) = &self.highlight_tags {
            let mut j: usize = 0;
            while j < tags.len()
                invariant
                    self.highlight_tags == Some(*tags),
                    valid_sync(self.sync),
                    all_presets_valid(self.presets@),
                    j <= tags.len(),
                    forall|k: int| 0 <= k < j ==> valid_name(#[trigger] strs(tags@)[k]),
                decreases tags.len() - j,
            {
                let tv = chars_of(tags[j].as_str());
                if let Err(e) = validate_name_chars(&tv, "tag") {
                    assert(!valid_name(strs(tags@)[j as int]));
                    proof {
                        lemma_first_invalid_at(strs(tags@), j as int);
                        reveal_strlit("");
                    }
                    let empty: Vec<char> = Vec::new();
                    return Err(prefixed("highlight_tags: ", &empty, "", e));
                }
                j += 1;
            }
            assert(all_valid(strs(tags@)));
        }
        Ok(())
    }
}

/// `a` + `b` + `c` + `d`.
fn prefixed(a: &str, b: &[char], c: &str, d: String) -> (r: String)
    ensures
        r@ == a@ + b@ + c@ + d@,
{
    let mut v: Vec<char> = Vec::new();
    append_str(&mut v, a);
    append_chars(&mut v, b);
    append_str(&mut v, c);
    append_str(&mut v, d.as_str());
    string_of(&v)
}

} // verus!
