//! Resolution of the configuration paths and the hook protocol.
//!
//! The environment (home directory, variables, files found on disk) is read by
//! the application into `ConfigSources`; the resolution itself happens here.
use vstd::prelude::*;
use crate::loader::ProfileFsRulesLoader;
use crate::rules::opt_view;
use crate::store::FsStateStore;
use crate::text::{chars_of, owned, push_str, str_eq, string_of_range};

verus! {

/// Which hook protocol decides output format and exit codes.
#[derive(Debug, Clone, Copy, PartialEq, Eq, Structural)]
pub enum HookProtocol {
    /// Exit code 2 denies.
    Claude,
    /// Exit code 0 with a JSON deny decision.
    Codex,
}

impl Default for HookProtocol {
    fn default() -> (p: Self)
        ensures
            p == HookProtocol::Claude,
    {
        HookProtocol::Claude
    }
}

/// `PathBuf::join`: `rel` when it is absolute, else `base` and `rel` with one
/// separator between them (none after an empty or `/`-ended base).
pub open spec fn join_path(base: Seq<char>, rel: Seq<char>) -> Seq<char> {
    if rel.len() > 0 && rel[0] == '/' {
        rel
    } else if base.len() == 0 || base.last() == '/' {
        base + rel
    } else {
        base + seq!['/'] + rel
    }
}

pub fn join(base: &str, rel: &str) -> (r: String)
    ensures
        r@ == join_path(base@, rel@),
{
    let b = chars_of(base);
    let rv = chars_of(rel);
    if rv.len() > 0 && rv[0] == '/' {
        return owned(rel);
    }
    let mut out = owned(base);
    if !(b.len() == 0 || b[b.len() - 1] == '/') {
        crate::text::push_char(&mut out, '/');
    }
    push_str(&mut out, rel);
    out
}

/// What the environment said when the configuration was built.
#[derive(Debug, Clone)]
pub struct ConfigSources {
    /// The home directory, when it could be found.
    pub home: Option<String>,
    /// `COURSERS_RULES`, when set.
    pub rules_env: Option<String>,
    /// `COURSERS_STATE`, when set.
    pub state_env: Option<String>,
    /// `CRS_FILTERS`, when set.
    pub filters_env: Option<String>,
    /// The project's `.ctx/crs-filters.toml`, when one was found.
    pub filters_project: Option<String>,
    /// The global filters file, when it exists.
    pub filters_global: Option<String>,
}

/// Resolved paths for a profile (or the default profile).
#[derive(Debug, Clone)]
pub struct ProfileConfig {
    pub rules_path: String,
    /// The global (home-directory) state file.
    pub global_state_path: String,
    /// The project-local state file.
    pub local_state_path: String,
    pub protocol: HookProtocol,
    pub filters_env_path: Option<String>,
    pub filters_project_path: Option<String>,
    pub filters_global_path: Option<String>,
}

/// Loads filters from the paths captured at build time: the environment
/// override alone when set, else the project file, else the global one.
pub struct ProfileFsFiltersLoader {
    pub env_path: Option<String>,
    pub project_path: Option<String>,
    pub global_path: Option<String>,
}

/// Loads rewrite rules from the paths captured at build time: the
/// environment override alone when set, else project and global merged.
pub struct ProfileFsRewriteLoader {
    pub env_path: Option<String>,
    pub project_path: Option<String>,
    pub global_path: Option<String>,
}

fn copy_opt(o: &Option<String>) -> (r: Option<String>)
    ensures
        r == *o,
{
    match o {
        Some(s) => Some(s.clone()),
        None => None,
    }
}

impl ProfileConfig {
    /// The project-local state path when that file exists, else the global one.
    pub fn effective_state_path(&self, local_exists: bool) -> (p: &String)
        ensures
            *p == if local_exists { self.local_state_path } else { self.global_state_path },
    {
        if local_exists {
            &self.local_state_path
        } else {
            &self.global_state_path
        }
    }

    /// A loader for the resolved rules path.
    pub fn rules_loader(&self) -> (l: ProfileFsRulesLoader)
        ensures
            l.path == self.rules_path,
    {
        ProfileFsRulesLoader { path: self.rules_path.clone() }
    }

    /// A store for the effective state path.
    pub fn state_store(&self, local_exists: bool) -> (s: FsStateStore)
        ensures
            s.path == if local_exists { self.local_state_path } else { self.global_state_path },
    {
        FsStateStore { path: self.effective_state_path(local_exists).clone() }
    }

    /// A filters loader over the captured filter paths.
    pub fn filters_loader(&self) -> (l: ProfileFsFiltersLoader)
        ensures
            l.env_path == self.filters_env_path,
            l.project_path == self.filters_project_path,
            l.global_path == self.filters_global_path,
    {
        ProfileFsFiltersLoader {
            env_path: copy_opt(&self.filters_env_path),
            project_path: copy_opt(&self.filters_project_path),
            global_path: copy_opt(&self.filters_global_path),
        }
    }

    /// A rewrite loader over the captured filter paths.
    pub fn rewrite_loader(&self) -> (l: ProfileFsRewriteLoader)
        ensures
            l.env_path == self.filters_env_path,
            l.project_path == self.filters_project_path,
            l.global_path == self.filters_global_path,
    {
        ProfileFsRewriteLoader {
            env_path: copy_opt(&self.filters_env_path),
            project_path: copy_opt(&self.filters_project_path),
            global_path: copy_opt(&self.filters_global_path),
        }
    }
}

/// Builder for `ProfileConfig`: defaults, then the profile directory, then
/// explicit overrides.
#[derive(Debug, Clone)]
pub struct ConfigBuilder {
    pub profile: Option<String>,
    pub rules_override: Option<String>,
    pub state_override: Option<String>,
    pub protocol_override: Option<HookProtocol>,
}

/// The configuration base directory under the home directory (`/tmp` without one).
pub open spec fn config_base(home: Option<Seq<char>>) -> Seq<char> {
    let h = match home {
        Some(h) => h,
        None => "/tmp"@,
    };
    join_path(h, ".config/coursers"@)
}

/// What `build` resolves: a named profile keeps its rules and global state in
/// `profiles/<name>/` under the base directory and its local state in
/// `.ctx/crs-<name>-state.json`; without one, the environment variables or the
/// legacy file names are used. Explicit overrides win; the `codex` profile
/// implies the Codex protocol unless one is given.
pub open spec fn built(c: ProfileConfig, b: ConfigBuilder, src: ConfigSources) -> bool {
    let base = config_base(opt_view(src.home));
    let (rules, global, local) = match b.profile {
        Some(name) => {
            let dir = join_path(join_path(base, "profiles"@), name@);
            (join_path(dir, "rules.json"@), join_path(dir, "state.json"@), ".ctx/crs-"@ + name@ + "-state.json"@)
        },
        None => (
            match src.rules_env {
                Some(p) => p@,
                None => join_path(base, "course-correct-rules.json"@),
            },
            match src.state_env {
                Some(p) => p@,
                None => join_path(base, "course-correct-state.json"@),
            },
            ".ctx/course-correct-state.json"@,
        ),
    };
    &&& c.rules_path@ == match b.rules_override {
        Some(p) => p@,
        None => rules,
    }
    &&& c.global_state_path@ == match b.state_override {
        Some(p) => p@,
        None => global,
    }
    &&& c.local_state_path@ == local
    &&& c.protocol == match b.protocol_override {
        Some(p) => p,
        None => if b.profile matches Some(n) && n@ == "codex"@ { HookProtocol::Codex } else { HookProtocol::Claude },
    }
    &&& c.filters_env_path == src.filters_env
    &&& c.filters_project_path == src.filters_project
    &&& c.filters_global_path == src.filters_global
}

impl ConfigBuilder {
    /// A builder with no profile and no overrides.
    pub fn new() -> (b: Self)
        ensures
            b.profile is None,
            b.rules_override is None,
            b.state_override is None,
            b.protocol_override is None,
    {
        ConfigBuilder { profile: None, rules_override: None, state_override: None, protocol_override: None }
    }

    /// Use a named profile.
    pub fn profile(self, name: &str) -> (b: Self)
        ensures
            b.profile matches Some(n) && n@ == name@,
            b.rules_override == self.rules_override,
            b.state_override == self.state_override,
            b.protocol_override == self.protocol_override,
    {
        let mut b = self;
        b.profile = Some(owned(name));
        b
    }

    /// Override the rules path.
    pub fn rules(self, path: String) -> (b: Self)
        ensures
            b.rules_override == Some(path),
            b.profile == self.profile,
            b.state_override == self.state_override,
            b.protocol_override == self.protocol_override,
    {
        let mut b = self;
        b.rules_override = Some(path);
        b
    }

    /// Override the global state path.
    pub fn state(self, path: String) -> (b: Self)
        ensures
            b.state_override == Some(path),
            b.profile == self.profile,
            b.rules_override == self.rules_override,
            b.protocol_override == self.protocol_override,
    {
        let mut b = self;
        b.state_override = Some(path);
        b
    }

    /// Override the hook protocol.
    pub fn protocol(self, proto: HookProtocol) -> (b: Self)
        ensures
            b.protocol_override == Some(proto),
            b.profile == self.profile,
            b.rules_override == self.rules_override,
            b.state_override == self.state_override,
    {
        let mut b = self;
        b.protocol_override = Some(proto);
        b
    }

    /// Resolve every path against what the environment said.
    pub fn build(self, src: &ConfigSources) -> (c: ProfileConfig)
        ensures
            built(c, self, *src),
    {
        proof {
            reveal_strlit("/tmp");
            reveal_strlit(".config/coursers");
            reveal_strlit("profiles");
            reveal_strlit("rules.json");
            reveal_strlit("state.json");
            reveal_strlit(".ctx/crs-");
            reveal_strlit("-state.json");
            reveal_strlit("course-correct-rules.json");
            reveal_strlit("course-correct-state.json");
            reveal_strlit(".ctx/course-correct-state.json");
            reveal_strlit("codex");
        }
        let home: String = match &src.home {
            Some(h) => h.clone(),
            None => owned("/tmp"),
        };
        let base = join(home.as_str(), ".config/coursers");
        let (rules, global, local) = match &self.profile {
            Some(name) => {
                let p = join(base.as_str(), "profiles");
                let dir = join(p.as_str(), name.as_str());
                let mut local = owned(".ctx/crs-");
                push_str(&mut local, name.as_str());
                push_str(&mut local, "-state.json");
                (join(dir.as_str(), "rules.json"), join(dir.as_str(), "state.json"), local)
            },
            None => {
                let rules = match &src.rules_env {
                    Some(p) => p.clone(),
                    None => join(base.as_str(), "course-correct-rules.json"),
                };
                let global = match &src.state_env {
                    Some(p) => p.clone(),
                    None => join(base.as_str(), "course-correct-state.json"),
                };
                (rules, global, owned(".ctx/course-correct-state.json"))
            },
        };
        let protocol = match self.protocol_override {
            Some(p) => p,
            None => match &self.profile {
                Some(n) => if str_eq(n.as_str(), "codex") {
                    HookProtocol::Codex
                } else {
                    HookProtocol::Claude
                },
                None => HookProtocol::Claude,
            },
        };
        let rules_path = match self.rules_override {
            Some(p) => p,
            None => rules,
        };
        let global_state_path = match self.state_override {
            Some(p) => p,
            None => global,
        };
        ProfileConfig {
            rules_path,
            global_state_path,
            local_state_path: local,
            protocol,
            filters_env_path: copy_opt(&src.filters_env),
            filters_project_path: copy_opt(&src.filters_project),
            filters_global_path: copy_opt(&src.filters_global),
        }
    }
}

impl Default for ConfigBuilder {
    fn default() -> (b: Self)
        ensures
            b.profile is None,
            b.rules_override is None,
            b.state_override is None,
            b.protocol_override is None,
    {
        Self::new()
    }
}


impl ProfileFsFiltersLoader {
    /// The filters file to read: the environment override, else the project
    /// file, else the global one.
    pub fn filters_path(&self) -> (r: Option<String>)
        ensures
            r == (if self.env_path is Some { self.env_path } else if self.project_path is Some {
                self.project_path
            } else {
                self.global_path
            }),
    {
        if self.env_path.is_some() {
            copy_opt(&self.env_path)
        } else if self.project_path.is_some() {
            copy_opt(&self.project_path)
        } else {
            copy_opt(&self.global_path)
        }
    }
}

/// The value of `o`, as a sequence of at most one.
pub open spec fn opt_seq(o: Option<String>) -> Seq<String> {
    match o {
        Some(x) => seq![x],
        None => Seq::empty(),
    }
}

impl ProfileFsRewriteLoader {
    /// The files whose rewrites are read, in evaluation order: the
    /// environment override alone when set, else the project file then the
    /// global one, each when present.
    pub fn rewrite_paths(&self) -> (r: Vec<String>)
        ensures
            r@ == (match self.env_path {
                Some(e) => seq![e],
                None => opt_seq(self.project_path) + opt_seq(self.global_path),
            }),
    {
        let mut r: Vec<String> = Vec::new();
        match &self.env_path {
            Some(e) => {
                r.push(e.clone());
                proof { assert(r@ =~= seq![*e]); }
            },
            None => {
                let ghost first = opt_seq(self.project_path);
                if let Some(p) = &self.project_path {
                    r.push(p.clone());
                }
                proof { assert(r@ =~= first); }
                if let Some(g) = &self.global_path {
                    r.push(g.clone());
                }
                proof {
                    assert(r@ =~= first + opt_seq(self.global_path));
                }
            },
        }
        r
    }
}


/// The state file named in the failure-learning settings, with a leading `~/`
/// replaced by the home directory (empty when unknown).
pub fn resolve_state_file(state_file: &str, home: &str) -> (r: String)
    ensures
        r@ == if state_file@.len() >= 2 && state_file@.take(2) == "~/"@ {
            join_path(home@, state_file@.skip(2))
        } else {
            state_file@
        },
{
    proof { reveal_strlit("~/"); }
    let v = chars_of(state_file);
    if v.len() >= 2 && v[0] == '~' && v[1] == '/' {
        proof { assert(v@.take(2) =~= "~/"@); }
        let rest = string_of_range(&v, 2, v.len());
        proof { assert(v@.subrange(2, v@.len() as int) =~= state_file@.skip(2)); }
        join(home, rest.as_str())
    } else {
        proof {
            if state_file@.len() >= 2 && state_file@.take(2) == "~/"@ {
                assert(state_file@.take(2)[0] == '~');
                assert(state_file@.take(2)[1] == '/');
            }
        }
        owned(state_file)
    }
}

// ---------------------------------------------------------------------------
// Searching upward from a directory
// ---------------------------------------------------------------------------

/// `p` without its trailing separators; a lone `/` stays.
pub open spec fn strip_trailing(p: Seq<char>) -> Seq<char>
    decreases p.len(),
{
    if p.len() > 1 && p.last() == '/' {
        strip_trailing(p.drop_last())
    } else {
        p
    }
}

/// The index of the last `/` in `q`.
pub open spec fn last_slash(q: Seq<char>) -> Option<int>
    decreases q.len(),
{
    if q.len() == 0 {
        None
    } else if q.last() == '/' {
        Some(q.len() - 1)
    } else {
        last_slash(q.drop_last())
    }
}

/// The directory that `PathBuf::pop` leaves of `p` (trailing and repeated
/// separators aside, with `.` components taken as names): none for the root
/// or an empty path, the empty path for a single relative name.
pub open spec fn parent_dir(p: Seq<char>) -> Option<Seq<char>> {
    let q = strip_trailing(p);
    if q.len() == 0 || q == seq!['/'] {
        None
    } else {
        match last_slash(q) {
            None => Some(Seq::empty()),
            Some(i) => Some(strip_trailing(q.take(i + 1))),
        }
    }
}

proof fn lemma_strip_trailing(p: Seq<char>)
    ensures
        strip_trailing(p).len() <= p.len(),
        strip_trailing(p).len() == 0 <==> p.len() == 0,
        strip_trailing(p).len() > 1 ==> strip_trailing(p).last() != '/',
        strip_trailing(p) =~= p.take(strip_trailing(p).len() as int),
    decreases p.len(),
{
    if p.len() > 1 && p.last() == '/' {
        lemma_strip_trailing(p.drop_last());
        assert(p.drop_last().take(strip_trailing(p).len() as int) =~= p.take(strip_trailing(p).len() as int));
    }
}

proof fn lemma_last_slash(q: Seq<char>)
    ensures
        last_slash(q) matches Some(i) ==> 0 <= i < q.len() && q[i] == '/',
        last_slash(q) is None ==> forall|k: int| 0 <= k < q.len() ==> q[k] != '/',
        last_slash(q) matches Some(i) ==> forall|k: int| i < k < q.len() ==> q[k] != '/',
    decreases q.len(),
{
    if q.len() > 0 && q.last() != '/' {
        lemma_last_slash(q.drop_last());
        assert forall|k: int| 0 <= k < q.len() - 1 implies q[k] == q.drop_last()[k] by {}
    }
}

/// The parent is shorter than the path.
pub proof fn lemma_parent_shorter(p: Seq<char>)
    ensures
        parent_dir(p) matches Some(d) ==> d.len() < p.len(),
{
    let q = strip_trailing(p);
    lemma_strip_trailing(p);
    if !(q.len() == 0 || q == seq!['/']) {
        lemma_last_slash(q);
        match last_slash(q) {
            None => {},
            Some(i) => {
                lemma_strip_trailing(q.take(i + 1));
                if i + 1 == q.len() {
                    if q.len() == 1 {
                        assert(q =~= seq!['/']);
                    }
                }
            },
        }
    }
}

/// `rel` joined to `dir` and to each directory above it, nearest first.
pub open spec fn upward_candidates(dir: Seq<char>, rel: Seq<char>) -> Seq<Seq<char>>
    decreases dir.len(),
{
    seq![join_path(dir, rel)] + match parent_dir(dir) {
        Some(d) => {
            proof { lemma_parent_shorter(dir); }
            upward_candidates(d, rel)
        },
        None => Seq::empty(),
    }
}

/// Whether `f`, asked about the path `path`, may have answered `b`.
pub open spec fn answered<F: Fn(&str) -> bool>(f: F, path: Seq<char>, b: bool) -> bool {
    exists|s: &str| s@ == path && #[trigger] call_ensures(f, (s,), b)
}

/// `r` is the first of the candidates `c` that `probe` reported present, all
/// before it reported absent; or none, all reported absent.
pub open spec fn first_present<F: Fn(&str) -> bool>(probe: F, c: Seq<Seq<char>>, r: Option<String>) -> bool {
    match r {
        Some(p) => exists|k: int| 0 <= k < c.len() && #[trigger] c[k] == p@
            && answered(probe, p@, true)
            && forall|j: int| 0 <= j < k ==> answered(probe, #[trigger] c[j], false),
        None => forall|j: int| 0 <= j < c.len() ==> answered(probe, #[trigger] c[j], false),
    }
}

/// The parent directory of `p`, as `PathBuf::pop` leaves it.
pub fn parent_of(p: &str) -> (r: Option<String>)
    ensures
        opt_view(r) == parent_dir(p@),
{
    let v = chars_of(p);
    let mut e: usize = v.len();
    proof { assert(v@.take(e as int) =~= v@); }
    while e > 1 && v[e - 1] == '/'
        invariant
            e <= v@.len(),
            strip_trailing(v@) == strip_trailing(v@.take(e as int)),
        decreases e,
    {
        proof { assert(v@.take(e as int).drop_last() =~= v@.take(e - 1)); }
        e -= 1;
    }
    let ghost q = v@.take(e as int);
    proof { assert(strip_trailing(q) == q); }
    if e == 0 || (e == 1 && v[0] == '/') {
        proof {
            if e == 1 {
                assert(q =~= seq!['/']);
            }
        }
        return None;
    }
    proof {
        if q == seq!['/'] {
            assert(q[0] == v@[0]);
        }
    }
    let mut i: usize = e;
    proof { assert(q.take(i as int) =~= q); }
    while i > 0 && v[i - 1] != '/'
        invariant
            i <= e <= v@.len(),
            q == v@.take(e as int),
            last_slash(q) == last_slash(q.take(i as int)),
        decreases i,
    {
        proof { assert(q.take(i as int).drop_last() =~= q.take(i - 1)); }
        i -= 1;
    }
    if i == 0 {
        proof { assert(q.take(0) =~= Seq::<char>::empty()); }
        return Some(String::new());
    }
    proof {
        assert(q.take(i as int).last() == '/');
        assert(last_slash(q) == Some(i - 1));
    }
    let ghost t = q.take(i as int);
    let mut e2: usize = i;
    proof { assert(v@.take(e2 as int) =~= t); }
    while e2 > 1 && v[e2 - 1] == '/'
        invariant
            e2 <= i <= e <= v@.len(),
            t == q.take(i as int),
            q == v@.take(e as int),
            strip_trailing(t) == strip_trailing(v@.take(e2 as int)),
        decreases e2,
    {
        proof { assert(v@.take(e2 as int).drop_last() =~= v@.take(e2 - 1)); }
        e2 -= 1;
    }
    proof {
        assert(strip_trailing(v@.take(e2 as int)) == v@.take(e2 as int));
        assert(v@.subrange(0, e2 as int) =~= v@.take(e2 as int));
    }
    Some(string_of_range(&v, 0, e2))
}

/// Walk up from `start`: the first of `upward_candidates(start, rel)` that
/// `probe` reports present, or none when it reports each absent.
pub fn find_upward<F: Fn(&str) -> bool>(start: &str, rel: &str, probe: F) -> (r: Option<String>)
    requires
        forall|s: &str| call_requires(probe, (s,)),
    ensures
        first_present(probe, upward_candidates(start@, rel@), r),
{
    let ghost all = upward_candidates(start@, rel@);
    let ghost mut done: Seq<Seq<char>> = Seq::empty();
    let mut dir = owned(start);
    loop
        invariant
            forall|s: &str| call_requires(probe, (s,)),
            all == upward_candidates(start@, rel@),
            all == done + upward_candidates(dir@, rel@),
            forall|j: int| 0 <= j < done.len() ==> answered(probe, #[trigger] done[j], false),
        decreases dir@.len(),
    {
        let cand = join(dir.as_str(), rel);
        let s = cand.as_str();
        let present = probe(s);
        proof {
            assert(call_ensures(probe, (s,), present));
            assert(answered(probe, cand@, present));
            assert(all[done.len() as int] == cand@);
        }
        if present {
            proof {
                let k = done.len() as int;
                assert forall|j: int| 0 <= j < k implies answered(probe, #[trigger] all[j], false) by {
                    assert(all[j] == done[j]);
                }
            }
            return Some(cand);
        }
        let up = parent_of(dir.as_str());
        match up {
            None => {
                proof {
                    let d2 = done.push(cand@);
                    assert(all =~= d2);
                    assert forall|j: int| 0 <= j < all.len() implies answered(probe, #[trigger] all[j], false) by {
                        if j < done.len() {
                            assert(all[j] == done[j]);
                        }
                    }
                }
                return None;
            },
            Some(d) => {
                proof {
                    lemma_parent_shorter(dir@);
                    let d2 = done.push(cand@);
                    assert(all =~= d2 + upward_candidates(d@, rel@));
                    assert forall|j: int| 0 <= j < d2.len() implies answered(probe, #[trigger] d2[j], false) by {
                        if j < done.len() {
                            assert(d2[j] == done[j]);
                        }
                    }
                    done = d2;
                }
                dir = d;
            },
        }
    }
}

} // verus!
