//! Shell-agnostic expansion of environment variable references in command strings.
use vstd::prelude::*;
use crate::text::{chars_of, occurs_at, occurs_at_exec, owned, push_char, push_str, string_of_range};

verus! {

/// Interface: how shell variable references are resolved in a command string.
pub trait VarExpander {
    fn expand(&self, command: &str) -> String;
}

/// A snapshot of environment variables as `(name, value)` pairs.
pub struct Environment {
    pub vars: Vec<(String, String)>,
}

impl View for Environment {
    type V = Seq<(Seq<char>, Seq<char>)>;

    open spec fn view(&self) -> Seq<(Seq<char>, Seq<char>)> {
        self.vars@.map_values(|p: (String, String)| (p.0@, p.1@))
    }
}

/// The value of the first variable called `name`.
pub open spec fn env_lookup(env: Seq<(Seq<char>, Seq<char>)>, name: Seq<char>) -> Option<Seq<char>>
    decreases env.len(),
{
    if env.len() == 0 {
        None
    } else if env[0].0 == name {
        Some(env[0].1)
    } else {
        env_lookup(env.drop_first(), name)
    }
}

impl Environment {
    pub fn empty() -> (e: Self)
        ensures
            e@.len() == 0,
    {
        Environment { vars: Vec::new() }
    }

    /// The value of the first variable called `name` (`std::env::var` on the snapshot).
    pub fn get(&self, name: &[char]) -> (r: Option<String>)
        ensures
            crate::rules::opt_view(r) == env_lookup(self@, name@),
    {
        let mut i: usize = 0;
        proof { assert(self@.skip(0) == self@); }
        while i < self.vars.len()
            invariant
                i <= self.vars@.len(),
                env_lookup(self@, name@) == env_lookup(self@.skip(i as int), name@),
            decreases self.vars.len() - i,
        {
            let key = chars_of(self.vars[i].0.as_str());
            proof {
                assert(self@.skip(i as int)[0] == self@[i as int]);
                assert(self@.skip(i as int).drop_first() == self@.skip(i + 1));
            }
            if chars_eq(&key, name) {
                return Some(self.vars[i].1.clone());
            }
            i += 1;
        }
        None
    }
}

impl Environment {
    /// The value of `name`, or nothing when it is unset
    /// (`std::env::var(name).unwrap_or_default()` on the snapshot).
    pub fn value_or_empty(&self, name: &str) -> (r: String)
        ensures
            r@ == match env_lookup(self@, name@) {
                Some(v) => v,
                None => Seq::<char>::empty(),
            },
    {
        let key = chars_of(name);
        match self.get(&key) {
            Some(v) => v,
            None => String::new(),
        }
    }
}

fn chars_eq(a: &[char], b: &[char]) -> (r: bool)
    ensures
        r == (a@ == b@),
{
    if a.len() != b.len() {
        return false;
    }
    let mut i: usize = 0;
    while i < a.len()
        invariant
            a@.len() == b@.len(),
            i <= a@.len(),
            forall|j: int| 0 <= j < i ==> a@[j] == b@[j],
        decreases a.len() - i,
    {
        if a[i] != b[i] {
            return false;
        }
        i += 1;
    }
    proof { assert(a@ == b@); }
    true
}

/// Whether `char::is_alphanumeric` holds of `c` (Unicode Alphabetic or Numeric).
pub uninterp spec fn unicode_alphanumeric(c: char) -> bool;

/// An ASCII letter or digit.
pub open spec fn ascii_alnum(c: char) -> bool {
    (65 <= (c as u32) <= 90) || (97 <= (c as u32) <= 122) || (48 <= (c as u32) <= 57)
}

/// `char::is_alphanumeric`, named by `unicode_alphanumeric`. As std documents,
/// of the ASCII characters exactly the letters and digits are alphanumeric.
#[verifier::external_body]
pub fn is_alphanumeric(c: char) -> (b: bool)
    ensures
        b == unicode_alphanumeric(c),
        (c as u32) < 128 ==> (b <==> ascii_alnum(c)),
{
    c.is_alphanumeric()
}

/// A character of a variable name: `_`, an ASCII letter or digit, or a
/// non-ASCII alphanumeric character.
pub open spec fn is_name_char(c: char) -> bool {
    c == '_' || if (c as u32) < 128 { ascii_alnum(c) } else { unicode_alphanumeric(c) }
}

fn name_char_exec(c: char) -> (b: bool)
    ensures
        b == is_name_char(c),
{
    c == '_' || is_alphanumeric(c)
}

/// Length of the identifier (alphanumerics and `_`) starting at `k`.
pub open spec fn name_len(s: Seq<char>, k: int) -> int
    decreases s.len() - k,
{
    if 0 <= k < s.len() && is_name_char(s[k]) {
        1 + name_len(s, k + 1)
    } else {
        0
    }
}

pub open spec fn is_blank(c: char) -> bool {
    c == ' ' || c == '\t' || c == '\n'
}

pub open spec fn starts_with_at(s: Seq<char>, i: int, p: Seq<char>) -> bool {
    occurs_at(s, p, i)
}

/// Whether the token at `i` is a URL (starts with `http://` or `https://`).
pub open spec fn url_at(s: Seq<char>, i: int) -> bool {
    starts_with_at(s, i, seq!['h', 't', 't', 'p', ':', '/', '/']) || starts_with_at(
        s,
        i,
        seq!['h', 't', 't', 'p', 's', ':', '/', '/'],
    )
}

/// Replacement text and length consumed for the `~` at `i`.
pub open spec fn tilde_piece(s: Seq<char>, env: Seq<(Seq<char>, Seq<char>)>, i: int) -> (Seq<char>, int) {
    let at_end = i + 1 == s.len();
    let next_ok = !at_end && (s[i + 1] == '/' || s[i + 1] == ' ');
    if at_end || next_ok {
        match env_lookup(env, seq!['H', 'O', 'M', 'E']) {
            Some(h) => (h, 1),
            None => (seq!['~'], 1),
        }
    } else {
        (seq!['~'], 1)
    }
}

/// Position of the first `}` at or after `k`, if any.
pub open spec fn close_brace(s: Seq<char>, k: int) -> Option<int>
    decreases s.len() - k,
{
    if k < 0 || k >= s.len() {
        None
    } else if s[k] == '}' {
        Some(k)
    } else {
        close_brace(s, k + 1)
    }
}

/// Replacement text and length consumed for the `$` at `i`.
pub open spec fn dollar_piece(s: Seq<char>, env: Seq<(Seq<char>, Seq<char>)>, i: int) -> (Seq<char>, int) {
    if i + 1 < s.len() && s[i + 1] == '$' {
        (seq!['$', '$'], 2)
    } else if starts_with_at(s, i + 1, seq!['e', 'n', 'v', '.']) && name_len(s, i + 5) > 0 {
        let n = name_len(s, i + 5);
        match env_lookup(env, s.subrange(i + 5, i + 5 + n)) {
            Some(v) => (v, 5 + n),
            None => (s.subrange(i, i + 5 + n), 5 + n),
        }
    } else if i + 1 < s.len() && s[i + 1] == '{' && close_brace(s, i + 2) is Some {
        let e = close_brace(s, i + 2).unwrap();
        match env_lookup(env, s.subrange(i + 2, e)) {
            Some(v) => (v, e + 1 - i),
            None => (s.subrange(i, e + 1), e + 1 - i),
        }
    } else if name_len(s, i + 1) > 0 {
        let n = name_len(s, i + 1);
        match env_lookup(env, s.subrange(i + 1, i + 1 + n)) {
            Some(v) => (v, 1 + n),
            None => (s.subrange(i, i + 1 + n), 1 + n),
        }
    } else {
        (seq!['$'], 1)
    }
}

/// The expansion of `s[i..]` given the scanner state: inside a single-quoted
/// region (`q`), at the start of a token (`ts`), inside a URL token (`url`).
pub open spec fn expand_scan(
    s: Seq<char>,
    env: Seq<(Seq<char>, Seq<char>)>,
    i: int,
    q: bool,
    ts: bool,
    url: bool,
) -> Seq<char>
    decreases s.len() - i,
{
    if i < 0 || i >= s.len() {
        seq![]
    } else {
        let c = s[i];
        if is_blank(c) {
            seq![c] + expand_scan(s, env, i + 1, q, true, false)
        } else {
            let url2 = if ts { url_at(s, i) } else { url };
            if ts && c == '\'' {
                seq![c] + expand_scan(s, env, i + 1, !q, false, url2)
            } else if c == '\'' {
                seq![c] + expand_scan(s, env, i + 1, !q, false, url2)
            } else if q || url2 {
                seq![c] + expand_scan(s, env, i + 1, q, false, url2)
            } else if c == '~' {
                let p = tilde_piece(s, env, i);
                if p.1 >= 1 && i + p.1 <= s.len() {
                    p.0 + expand_scan(s, env, i + p.1, q, false, url2)
                } else {
                    seq![]
                }
            } else if c == '$' {
                let p = dollar_piece(s, env, i);
                if p.1 >= 1 && i + p.1 <= s.len() {
                    p.0 + expand_scan(s, env, i + p.1, q, false, url2)
                } else {
                    seq![]
                }
            } else {
                seq![c] + expand_scan(s, env, i + 1, q, false, url2)
            }
        }
    }
}

/// Expansion of a whole command.
pub open spec fn expansion(s: Seq<char>, env: Seq<(Seq<char>, Seq<char>)>) -> Seq<char> {
    expand_scan(s, env, 0, false, true, false)
}

proof fn lemma_name_len(s: Seq<char>, k: int, j: int)
    requires
        0 <= k <= j <= s.len(),
        forall|m: int| k <= m < j ==> is_name_char(#[trigger] s[m]),
        j == s.len() || !is_name_char(s[j]),
    ensures
        name_len(s, k) == j - k,
    decreases j - k,
{
    if k < j {
        lemma_name_len(s, k + 1, j);
    }
}

fn name_len_exec(v: &[char], k: usize) -> (n: usize)
    requires
        k <= v@.len(),
    ensures
        n == name_len(v@, k as int),
        k + n <= v@.len(),
{
    let mut j = k;
    while j < v.len() && name_char_exec(v[j])
        invariant
            k <= j <= v@.len(),
            forall|m: int| k <= m < j ==> is_name_char(#[trigger] v@[m]),
        decreases v.len() - j,
    {
        j += 1;
    }
    proof { lemma_name_len(v@, k as int, j as int); }
    j - k
}

proof fn lemma_close_brace(s: Seq<char>, k: int, j: int)
    requires
        0 <= k <= j <= s.len(),
        forall|m: int| k <= m < j ==> #[trigger] s[m] != '}',
    ensures
        close_brace(s, k) == close_brace(s, j),
    decreases j - k,
{
    if k < j {
        lemma_close_brace(s, k + 1, j);
    }
}

fn close_brace_exec(v: &[char], k: usize) -> (r: Option<usize>)
    requires
        k <= v@.len(),
    ensures
        match r {
            Some(e) => close_brace(v@, k as int) == Some(e as int) && k <= e < v@.len(),
            None => close_brace(v@, k as int) is None,
        },
{
    let mut j = k;
    while j < v.len() && v[j] != '}'
        invariant
            k <= j <= v@.len(),
            forall|m: int| k <= m < j ==> #[trigger] v@[m] != '}',
        decreases v.len() - j,
    {
        j += 1;
    }
    proof { lemma_close_brace(v@, k as int, j as int); }
    if j < v.len() {
        Some(j)
    } else {
        None
    }
}

fn url_at_exec(v: &[char], i: usize) -> (b: bool)
    ensures
        b == url_at(v@, i as int),
{
    let http = chars_of("http://");
    let https = chars_of("https://");
    proof {
        reveal_strlit("http://");
        reveal_strlit("https://");
        assert(http@ == seq!['h', 't', 't', 'p', ':', '/', '/']);
        assert(https@ == seq!['h', 't', 't', 'p', 's', ':', '/', '/']);
    }
    occurs_at_exec(v, &http, i) || occurs_at_exec(v, &https, i)
}

fn lookup_or_literal(v: &[char], env: &Environment, lo: usize, hi: usize, name_lo: usize, name_hi: usize) -> (r: String)
    requires
        lo <= name_lo <= name_hi <= hi <= v@.len(),
    ensures
        r@ == match env_lookup(env@, v@.subrange(name_lo as int, name_hi as int)) {
            Some(val) => val,
            None => v@.subrange(lo as int, hi as int),
        },
{
    let name = slice_range(v, name_lo, name_hi);
    match env.get(&name) {
        Some(val) => val,
        None => string_of_range(v, lo, hi),
    }
}

fn slice_range(v: &[char], lo: usize, hi: usize) -> (r: Vec<char>)
    requires
        lo <= hi <= v@.len(),
    ensures
        r@ == v@.subrange(lo as int, hi as int),
{
    let mut r: Vec<char> = Vec::new();
    let mut i = lo;
    while i < hi
        invariant
            lo <= i <= hi <= v@.len(),
            r@ == v@.subrange(lo as int, i as int),
        decreases hi - i,
    {
        r.push(v[i]);
        i += 1;
        proof { assert(r@ == v@.subrange(lo as int, i as int)); }
    }
    r
}

fn tilde_exec(v: &[char], env: &Environment, i: usize) -> (r: (String, usize))
    requires
        i < v@.len(),
    ensures
        (r.0@, r.1 as int) == tilde_piece(v@, env@, i as int),
{
    let at_end = i == v.len() - 1;
    let next_ok = !at_end && (v[i + 1] == '/' || v[i + 1] == ' ');
    if at_end || next_ok {
        let home = chars_of("HOME");
        proof {
            reveal_strlit("HOME");
            assert(home@ == seq!['H', 'O', 'M', 'E']);
        }
        match env.get(&home) {
            Some(h) => (h, 1),
            None => {
                let t = owned("~");
                proof { reveal_strlit("~"); assert(t@ == seq!['~']); }
                (t, 1)
            },
        }
    } else {
        let t = owned("~");
        proof { reveal_strlit("~"); assert(t@ == seq!['~']); }
        (t, 1)
    }
}

fn dollar_exec(v: &[char], env: &Environment, i: usize) -> (r: (String, usize))
    requires
        i < v@.len(),
    ensures
        (r.0@, r.1 as int) == dollar_piece(v@, env@, i as int),
        1 <= r.1,
        i + r.1 <= v@.len(),
{
    let n = v.len();
    if i + 1 < n && v[i + 1] == '$' {
        let t = owned("$$");
        proof { reveal_strlit("$$"); assert(t@ == seq!['$', '$']); }
        return (t, 2);
    }
    let envp = chars_of("env.");
    proof {
        reveal_strlit("env.");
        assert(envp@ == seq!['e', 'n', 'v', '.']);
    }
    if occurs_at_exec(v, &envp, i + 1) {
        let k = name_len_exec(v, i + 5);
        if k > 0 {
            let text = lookup_or_literal(v, env, i, i + 5 + k, i + 5, i + 5 + k);
            return (text, 5 + k);
        }
    }
    if i + 1 < n && v[i + 1] == '{' {
        match close_brace_exec(v, i + 2) {
            Some(e) => {
                let text = lookup_or_literal(v, env, i, e + 1, i + 2, e);
                return (text, e + 1 - i);
            },
            None => {},
        }
    }
    let k = name_len_exec(v, i + 1);
    if k > 0 {
        let text = lookup_or_literal(v, env, i, i + 1 + k, i + 1, i + 1 + k);
        return (text, 1 + k);
    }
    let t = owned("$");
    proof { reveal_strlit("$"); assert(t@ == seq!['$']); }
    (t, 1)
}

/// Shell-agnostic environment variable expansion against `env`.
///
/// Resolves `$VARNAME` and `${VARNAME}` (POSIX), `$env.VARNAME` (Nushell) and
/// `~` as a path prefix (token `~` or `~/…`, expanded to `$HOME`).
/// Unresolved variables are left as they are; `$$` is left as it is; tokens
/// starting with `http://` or `https://` and single-quoted regions are not expanded.
pub fn expand_vars(command: &str, env: &Environment) -> (r: String)
    ensures
        r@ == expansion(command@, env@),
{
    let v = chars_of(command);
    let n = v.len();
    let mut out = String::new();
    let mut i: usize = 0;
    let mut q = false;
    let mut ts = true;
    let mut url = false;
    while i < n
        invariant
            n == v@.len(),
            v@ == command@,
            i <= n,
            out@ + expand_scan(v@, env@, i as int, q, ts, url) == expansion(command@, env@),
        decreases n - i,
    {
        let ghost (gi, gq, gts, gurl) = (i as int, q, ts, url);
        let ghost before = out@;
        let c = v[i];
        if c == ' ' || c == '\t' || c == '\n' {
            push_char(&mut out, c);
            i += 1;
            ts = true;
            url = false;
        } else {
            if ts {
                url = url_at_exec(&v, i);
            }
            if c == '\'' {
                q = !q;
                push_char(&mut out, c);
                i += 1;
            } else if q || url {
                push_char(&mut out, c);
                i += 1;
            } else if c == '~' {
                let (text, used) = tilde_exec(&v, env, i);
                push_str(&mut out, text.as_str());
                i += used;
            } else if c == '$' {
                let (text, used) = dollar_exec(&v, env, i);
                push_str(&mut out, text.as_str());
                i += used;
            } else {
                push_char(&mut out, c);
                i += 1;
            }
            ts = false;
        }
        proof {
            assert(out@ + expand_scan(v@, env@, i as int, q, ts, url) == before + expand_scan(v@, env@, gi, gq, gts, gurl));
        }
    }
    proof { assert(out@ + expand_scan(v@, env@, i as int, q, ts, url) == out@); }
    out
}

/// Expander that leaves commands unchanged.
pub struct NoopExpander;

impl VarExpander for NoopExpander {
    fn expand(&self, command: &str) -> (r: String)
        ensures
            r@ == command@,
    {
        owned(command)
    }
}

/// Expander that resolves references against an environment snapshot.
pub struct EnvExpander {
    pub env: Environment,
}

impl VarExpander for EnvExpander {
    fn expand(&self, command: &str) -> (r: String)
        ensures
            r@ == expansion(command@, self.env@),
    {
        expand_vars(command, &self.env)
    }
}


/// A name of ASCII letters, digits and `_`.
pub open spec fn ascii_name(name: Seq<char>) -> bool {
    name.len() > 0 && forall|k: int| 0 <= k < name.len() ==> (#[trigger] name[k] == '_' || ascii_alnum(name[k]))
}

proof fn lemma_name_tail(s: Seq<char>, k: int, name: Seq<char>)
    requires
        ascii_name(name),
        0 <= k,
        s == s.take(k) + name,
        s.len() == k + name.len(),
    ensures
        name_len(s, k) == name.len(),
{
    assert forall|m: int| k <= m < s.len() implies is_name_char(#[trigger] s[m]) by {
        assert(s[m] == name[m - k]);
    }
    lemma_name_len(s, k, s.len() as int);
}

#[verifier::rlimit(40)]
proof fn lemma_unset_bare(name: Seq<char>, env: Seq<(Seq<char>, Seq<char>)>)
    requires
        ascii_name(name),
        env_lookup(env, name) is None,
    ensures
        expansion("echo $"@ + name, env) == "echo $"@ + name,
{
    reveal_strlit("echo $");
    let n = name.len() as int;
    // `$NAME`
    let s1 = "echo $"@ + name;
    assert(s1 == s1.take(6) + name);
    lemma_name_tail(s1, 6, name);
    assert(s1.subrange(6, 6 + n) =~= name);
    assert(s1[6] == name[0]);
    assert(dollar_piece(s1, env, 5) == (s1.subrange(5, 6 + n), 1 + n));
    assert(expand_scan(s1, env, 6 + n, false, false, false) == Seq::<char>::empty());
    assert(expand_scan(s1, env, 5, false, true, false) == s1.subrange(5, 6 + n));
    assert(expand_scan(s1, env, 4, false, false, false) == seq![' '] + s1.subrange(5, 6 + n));
    assert(expand_scan(s1, env, 3, false, false, false) == seq!['o', ' '] + s1.subrange(5, 6 + n));
    assert(expand_scan(s1, env, 2, false, false, false) == seq!['h', 'o', ' '] + s1.subrange(5, 6 + n));
    assert(expand_scan(s1, env, 1, false, false, false) == seq!['c', 'h', 'o', ' '] + s1.subrange(5, 6 + n));
    assert(expand_scan(s1, env, 0, false, true, false) == seq!['e', 'c', 'h', 'o', ' '] + s1.subrange(5, 6 + n));
    assert(seq!['e', 'c', 'h', 'o', ' '] + s1.subrange(5, 6 + n) =~= s1);
}

#[verifier::rlimit(40)]
proof fn lemma_unset_braced(name: Seq<char>, env: Seq<(Seq<char>, Seq<char>)>)
    requires
        ascii_name(name),
        env_lookup(env, name) is None,
    ensures
        expansion("echo ${"@ + name + "}"@, env) == "echo ${"@ + name + "}"@,
{
    reveal_strlit("echo ${");
    reveal_strlit("}");
    let n = name.len() as int;
    // `${NAME}`
    let s2 = "echo ${"@ + name + "}"@;
    assert forall|m: int| 7 <= m < 7 + n implies #[trigger] s2[m] != '}' by {
        assert(s2[m] == name[m - 7]);
    }
    lemma_close_brace(s2, 7, 7 + n);
    assert(close_brace(s2, 7) == Some(7 + n));
    assert(s2.subrange(7, 7 + n) =~= name);
    assert(dollar_piece(s2, env, 5) == (s2.subrange(5, 8 + n), 3 + n));
    assert(expand_scan(s2, env, 8 + n, false, false, false) == Seq::<char>::empty());
    assert(expand_scan(s2, env, 5, false, true, false) == s2.subrange(5, 8 + n));
    assert(expand_scan(s2, env, 4, false, false, false) == seq![' '] + s2.subrange(5, 8 + n));
    assert(expand_scan(s2, env, 3, false, false, false) == seq!['o', ' '] + s2.subrange(5, 8 + n));
    assert(expand_scan(s2, env, 2, false, false, false) == seq!['h', 'o', ' '] + s2.subrange(5, 8 + n));
    assert(expand_scan(s2, env, 1, false, false, false) == seq!['c', 'h', 'o', ' '] + s2.subrange(5, 8 + n));
    assert(expand_scan(s2, env, 0, false, true, false) == seq!['e', 'c', 'h', 'o', ' '] + s2.subrange(5, 8 + n));
    assert(seq!['e', 'c', 'h', 'o', ' '] + s2.subrange(5, 8 + n) =~= s2);
}

#[verifier::rlimit(40)]
proof fn lemma_unset_env_dot(name: Seq<char>, env: Seq<(Seq<char>, Seq<char>)>)
    requires
        ascii_name(name),
        env_lookup(env, name) is None,
    ensures
        expansion("x $env."@ + name, env) == "x $env."@ + name,
{
    reveal_strlit("x $env.");
    let n = name.len() as int;
    // `$env.NAME`
    let s3 = "x $env."@ + name;
    assert(s3 == s3.take(7) + name);
    lemma_name_tail(s3, 7, name);
    assert(s3.subrange(7, 7 + n) =~= name);
    assert(s3.subrange(3, 7) =~= seq!['e', 'n', 'v', '.']);
    assert(starts_with_at(s3, 3, seq!['e', 'n', 'v', '.']));
    assert(dollar_piece(s3, env, 2) == (s3.subrange(2, 7 + n), 5 + n));
    assert(expand_scan(s3, env, 7 + n, false, false, false) == Seq::<char>::empty());
    assert(expand_scan(s3, env, 2, false, true, false) == s3.subrange(2, 7 + n));
    assert(expand_scan(s3, env, 1, false, false, false) == seq![' '] + s3.subrange(2, 7 + n));
    assert(expand_scan(s3, env, 0, false, true, false) == seq!['x', ' '] + s3.subrange(2, 7 + n));
    assert(seq!['x', ' '] + s3.subrange(2, 7 + n) =~= s3);
}

/// References to unset variables are kept as written: for a name of ASCII
/// letters, digits and `_` that the environment does not set, `$NAME`,
/// `${NAME}` and `$env.NAME` come back unchanged.
pub proof fn lemma_unset_references_kept(name: Seq<char>, env: Seq<(Seq<char>, Seq<char>)>)
    requires
        ascii_name(name),
        env_lookup(env, name) is None,
    ensures
        expansion("echo $"@ + name, env) == "echo $"@ + name,
        expansion("echo ${"@ + name + "}"@, env) == "echo ${"@ + name + "}"@,
        expansion("x $env."@ + name, env) == "x $env."@ + name,
{
    lemma_unset_bare(name, env);
    lemma_unset_braced(name, env);
    lemma_unset_env_dot(name, env);
}

} // verus!
