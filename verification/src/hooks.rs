//! Declarative hook rules for the agent's hook events.
//!
//! Rules are evaluated in order. The first `Deny` wins; rewrites and messages
//! accumulate. Side-effect commands are handed to the caller, which runs them
//! and resumes the evaluation with what they printed.
use vstd::prelude::*;
use crate::expand::Environment;
use crate::matcher::{
    braced_reference_pattern, compile, is_match, pattern_finds, regex_compiles, regex_replace_by_env,
    regex_replace_every, replace_all as regex_replace_all_exec, replace_all_from_env,
};
use crate::rules::{opt_view, seq_views};
use crate::config::{find_upward, first_present, upward_candidates};
use crate::text::{
    chars_of, decimal, decimal_string, has_substring, occurs_at, contains_str, owned, push_char, push_str,
    replace_all, replace_str, str_eq, trim, trim_bounds, string_of_range, has_prefix, lowercase, to_lowercase,
};

verus! {

/// The agent's hook events.
#[derive(Debug, Clone, Copy, PartialEq, Eq, Hash, Structural)]
pub enum HookEvent {
    PreToolUse,
    PostToolUse,
    SessionStart,
    SessionEnd,
    PreCompact,
    Stop,
    SubagentStop,
}

/// When a post-hook rule fires relative to the tool's exit code.
#[derive(Debug, Clone, Copy, PartialEq, Eq, Structural)]
pub enum When {
    Always,
    OnSuccess,
    OnFailure,
}

impl Default for When {
    fn default() -> (w: Self)
        ensures
            w == When::Always,
    {
        When::Always
    }
}

/// What a hook rule does when it matches.
#[derive(Debug, Clone)]
pub enum HookAction {
    /// Block the tool call with a message.
    Deny { message: String },
    /// Rewrite the command: `prepend` goes before it, `inject` after it, and
    /// `replace` is applied as a regex substitution to the whole result.
    Rewrite { inject: Option<String>, prepend: Option<String>, replace: Option<String> },
    /// Run an external command as a side effect; with `capture`, its output
    /// becomes a message.
    Run { command: Vec<String>, capture: bool },
    /// Emit an informational message.
    Notify { template: String },
}

/// A single hook rule.
#[derive(Debug, Clone)]
pub struct HookRule {
    /// Which event this rule fires on.
    pub event: HookEvent,
    /// Tool name filter (`"Bash"`, `"Edit|Write"`, `"*"`).
    pub matcher: Option<String>,
    /// Regex matched against the command (Bash) or file path (Edit/Write).
    pub pattern: Option<String>,
    /// Skip this rule when the target contains this string.
    pub unless: Option<String>,
    /// When to fire relative to the exit code.
    pub when: When,
    pub action: HookAction,
    /// Human-readable label for logging and diagnostics.
    pub label: Option<String>,
}

/// The merged hook configuration.
#[derive(Debug, Clone)]
pub struct HookPipelineConfig {
    pub hooks: Vec<HookRule>,
}

impl Default for HookPipelineConfig {
    fn default() -> (c: Self)
        ensures
            c.hooks@.len() == 0,
    {
        HookPipelineConfig { hooks: Vec::new() }
    }
}

impl HookPipelineConfig {
    /// Append another config's rules after ours.
    pub fn merge(&mut self, other: Self)
        ensures
            final(self).hooks@ == old(self).hooks@ + other.hooks@,
    {
        let mut other = other;
        self.hooks.append(&mut other.hooks);
    }
}

/// Everything a hook rule may match against or act on.
#[derive(Debug, Clone)]
pub struct HookContext {
    pub event: Option<HookEvent>,
    pub tool_name: Option<String>,
    /// For Bash: the command. For Edit/Write: the file path.
    pub target: Option<String>,
    pub exit_code: Option<i64>,
    /// Raw input JSON, available to side-effect commands.
    pub raw_json: Option<String>,
}

pub open spec fn or_empty(o: Option<String>) -> Seq<char> {
    match o {
        Some(s) => s@,
        None => Seq::empty(),
    }
}

/// Whether `m[i..j]` is one of the `|`-separated pieces of `m`.
pub open spec fn bar_piece(m: Seq<char>, i: int, j: int) -> bool {
    &&& 0 <= i <= j <= m.len()
    &&& (i == 0 || m[i - 1] == '|')
    &&& (j == m.len() || m[j] == '|')
    &&& forall|k: int| i <= k < j ==> m[k] != '|'
}

/// A tool matcher accepts `tool` when it is `*` or one of its `|`-separated
/// pieces, trimmed, equals `tool`.
pub open spec fn tool_matches(matcher: Seq<char>, tool: Seq<char>) -> bool {
    ||| matcher == seq!['*']
    ||| exists|i: int, j: int| bar_piece(matcher, i, j) && #[trigger] trim(matcher.subrange(i, j)) == tool
}

fn slice_eq(v: &[char], lo: usize, hi: usize, t: &[char]) -> (b: bool)
    requires
        lo <= hi <= v@.len(),
    ensures
        b == (v@.subrange(lo as int, hi as int) == t@),
{
    if hi - lo != t.len() {
        return false;
    }
    let mut k: usize = 0;
    while k < t.len()
        invariant
            lo <= hi <= v@.len(),
            hi - lo == t@.len(),
            k <= t@.len(),
            forall|j: int| 0 <= j < k ==> v@[lo + j] == t@[j],
        decreases t.len() - k,
    {
        if v[lo + k] != t[k] {
            proof { assert(v@.subrange(lo as int, hi as int)[k as int] != t@[k as int]); }
            return false;
        }
        k += 1;
    }
    proof { assert(v@.subrange(lo as int, hi as int) =~= t@); }
    true
}

/// Match a tool name against a matcher such as `"Bash"`, `"Edit|Write"` or `"*"`.
pub fn matches_tool(matcher: &str, tool: &str) -> (b: bool)
    ensures
        b == tool_matches(matcher@, tool@),
{
    let m = chars_of(matcher);
    let t = chars_of(tool);
    if m.len() == 1 && m[0] == '*' {
        proof { assert(matcher@ =~= seq!['*']); }
        return true;
    }
    proof {
        if matcher@ == seq!['*'] {
            assert(m@.len() == 1 && m@[0] == '*');
        }
    }
    let mut start: usize = 0;
    let mut k: usize = 0;
    while k < m.len()
        invariant
            m@ == matcher@,
            t@ == tool@,
            start <= k <= m@.len(),
            start == 0 || m@[start - 1] == '|',
            forall|x: int| start <= x < k ==> m@[x] != '|',
            forall|i: int, j: int| bar_piece(m@, i, j) && i < start ==> trim(m@.subrange(i, j)) != t@,
        decreases m@.len() - k,
    {
        if m[k] == '|' {
            let (lo, hi) = trim_bounds(&m, start, k);
            if slice_eq(&m, lo, hi, &t) {
                proof {
                    assert(bar_piece(m@, start as int, k as int));
                }
                return true;
            }
            proof {
                assert forall|i: int, j: int| bar_piece(m@, i, j) && i < k + 1 implies trim(m@.subrange(i, j)) != t@ by {
                    if i >= start {
                        if i > start {
                            assert(m@[i - 1] == '|');
                        }
                        if j < k {
                            assert(m@[j] == '|');
                        }
                        if j > k {
                            assert(m@[k as int] == '|');
                        }
                    }
                }
            }
            start = k + 1;
        }
        k += 1;
    }
    let (lo, hi) = trim_bounds(&m, start, m.len());
    if slice_eq(&m, lo, hi, &t) {
        proof {
            assert(bar_piece(m@, start as int, m@.len() as int));
        }
        return true;
    }
    proof {
        assert forall|i: int, j: int| bar_piece(m@, i, j) implies trim(m@.subrange(i, j)) != t@ by {
            if i >= start {
                if i > start {
                    assert(m@[i - 1] == '|');
                }
                if j < m@.len() {
                    assert(m@[j] == '|');
                }
            }
        }
    }
    false
}

/// Decimal rendering of a signed integer (`i64::to_string`).
pub open spec fn signed_decimal(n: i64) -> Seq<char> {
    if n < 0 {
        seq!['-'] + decimal((-n) as nat)
    } else {
        decimal(n as nat)
    }
}

pub fn signed_string(n: i64) -> (s: String)
    ensures
        s@ == signed_decimal(n),
{
    if n < 0 {
        let a: u64 = (0i128 - (n as i128)) as u64;
        let mut s = owned("-");
        let d = decimal_string(a);
        push_str(&mut s, d.as_str());
        proof { reveal_strlit("-"); }
        s
    } else {
        decimal_string(n as u64)
    }
}

/// `${target}`, `${tool_name}` and `${exit_code}` replaced by the context's values,
/// each only when the context has one.
pub open spec fn template_text(template: Seq<char>, ctx: HookContext) -> Seq<char> {
    let a = match ctx.target {
        Some(t) => replace_all(template, "${target}"@, t@),
        None => template,
    };
    let b = match ctx.tool_name {
        Some(t) => replace_all(a, "${tool_name}"@, t@),
        None => a,
    };
    match ctx.exit_code {
        Some(c) => replace_all(b, "${exit_code}"@, signed_decimal(c)),
        None => b,
    }
}

/// Expand `${target}`, `${tool_name}`, `${exit_code}` in a template.
pub fn expand_template(template: &str, ctx: &HookContext) -> (s: String)
    ensures
        s@ == template_text(template@, *ctx),
{
    proof {
        reveal_strlit("${target}");
        reveal_strlit("${tool_name}");
        reveal_strlit("${exit_code}");
    }
    let mut s = owned(template);
    match &ctx.target {
        Some(t) => {
            s = replace_str(s.as_str(), "${target}", t.as_str());
        },
        None => {},
    }
    match &ctx.tool_name {
        Some(t) => {
            s = replace_str(s.as_str(), "${tool_name}", t.as_str());
        },
        None => {},
    }
    match ctx.exit_code {
        Some(code) => {
            let c = signed_string(code);
            s = replace_str(s.as_str(), "${exit_code}", c.as_str());
        },
        None => {},
    }
    s
}

/// The environment that rewrite strings are expanded against: a snapshot of
/// the variables and the current branch's slug, when it has one.
pub struct HookEnv {
    pub vars: Environment,
    pub branch_slug: Option<String>,
}

/// The slug of a branch named `<kind>/<rest>` for the kinds feature, fix,
/// chore and feat: `rest` with `/` and `_` turned into `-`, lower-cased.
pub open spec fn slug_of(branch: Seq<char>) -> Option<Seq<char>> {
    let rest: Option<Seq<char>> = if has_prefix(branch, "feature/"@) {
        Some(branch.skip(8))
    } else if has_prefix(branch, "fix/"@) {
        Some(branch.skip(4))
    } else if has_prefix(branch, "chore/"@) {
        Some(branch.skip(6))
    } else if has_prefix(branch, "feat/"@) {
        Some(branch.skip(5))
    } else {
        None
    };
    match rest {
        Some(r) => Some(lowercase(dashed(r))),
        None => None,
    }
}

pub open spec fn dashed(s: Seq<char>) -> Seq<char> {
    s.map_values(|c: char| if c == '/' || c == '_' { '-' } else { c })
}

fn starts_with_str(v: &[char], p: &str) -> (b: bool)
    ensures
        b == has_prefix(v@, p@),
{
    let pv = chars_of(p);
    if pv.len() > v.len() {
        return false;
    }
    let r = slice_eq(v, 0, pv.len(), &pv);
    proof {
        assert(v@.subrange(0, pv@.len() as int) == v@.take(pv@.len() as int));
    }
    r
}

/// The branch slug used for `${GIT_BRANCH_SLUG}`, from the branch name
/// (`git rev-parse --abbrev-ref HEAD`, trimmed).
pub fn branch_slug(branch: &str) -> (r: Option<String>)
    ensures
        opt_view(r) == slug_of(branch@),
{
    proof {
        reveal_strlit("feature/");
        reveal_strlit("fix/");
        reveal_strlit("chore/");
        reveal_strlit("feat/");
    }
    let v = chars_of(branch);
    let skip: usize = if starts_with_str(&v, "feature/") {
        8
    } else if starts_with_str(&v, "fix/") {
        4
    } else if starts_with_str(&v, "chore/") {
        6
    } else if starts_with_str(&v, "feat/") {
        5
    } else {
        return None;
    };
    let mut out = String::new();
    let mut i: usize = skip;
    while i < v.len()
        invariant
            v@ == branch@,
            skip <= i <= v@.len(),
            out@ == dashed(v@.subrange(skip as int, i as int)),
        decreases v.len() - i,
    {
        let c = v[i];
        let d = if c == '/' || c == '_' { '-' } else { c };
        push_char(&mut out, d);
        proof {
            assert(v@.subrange(skip as int, i + 1) == v@.subrange(skip as int, i as int).push(c));
            assert(dashed(v@.subrange(skip as int, i + 1)) =~= dashed(v@.subrange(skip as int, i as int)).push(d));
        }
        i += 1;
    }
    proof { assert(v@.subrange(skip as int, v@.len() as int) == v@.skip(skip as int)); }
    Some(to_lowercase(out.as_str()))
}

/// `${GIT_BRANCH_SLUG}` replaced by the branch slug (nothing without one),
/// then every `${NAME}` replaced by the variable's value (nothing when unset).
/// Text without `${` holds no reference, so the regex pass leaves it as it is
/// and is not made.
pub open spec fn env_expanded(s: Seq<char>, env: HookEnv) -> Seq<char> {
    let t = replace_all(s, "${GIT_BRANCH_SLUG}"@, or_empty(env.branch_slug));
    if has_substring(t, "${"@) && regex_compiles(braced_reference_pattern()) {
        regex_replace_by_env(braced_reference_pattern(), t, env.vars@)
    } else {
        t
    }
}

/// Expand `${GIT_BRANCH_SLUG}` and `${VAR}` references.
pub fn expand_env_vars(s: &str, env: &HookEnv) -> (r: String)
    ensures
        r@ == env_expanded(s@, *env),
{
    proof { reveal_strlit("${GIT_BRANCH_SLUG}"); }
    let slug = match &env.branch_slug {
        Some(b) => owned(b.as_str()),
        None => String::new(),
    };
    let t = replace_str(s, "${GIT_BRANCH_SLUG}", slug.as_str());
    proof { reveal_strlit("${"); }
    if !contains_str(t.as_str(), "${") {
        return t;
    }
    let pattern = "\\$\\{(\\w+)\\}";
    proof { assert(pattern@ == braced_reference_pattern()); }
    match compile(pattern) {
        Some(re) => replace_all_from_env(&re, t.as_str(), &env.vars),
        None => t,
    }
}

/// What a rewrite does to `cmd`: `prepend` (expanded) and a space before it,
/// a space and `inject` (expanded) after it, then every match of `replace`
/// replaced by `replace` itself when it compiles as a regex.
pub open spec fn rewrite_text(
    cmd: Seq<char>,
    inject: Option<Seq<char>>,
    prepend: Option<Seq<char>>,
    replace: Option<Seq<char>>,
    env: HookEnv,
) -> Seq<char> {
    let a = match prepend {
        Some(p) => env_expanded(p, env) + seq![' '] + cmd,
        None => cmd,
    };
    let b = match inject {
        Some(j) => a + seq![' '] + env_expanded(j, env),
        None => a,
    };
    match replace {
        Some(x) => if regex_compiles(x) { regex_replace_every(x, b, x) } else { b },
        None => b,
    }
}

/// Apply a rule's rewrite transforms to a command.
pub fn apply_rewrite(
    command: &str,
    inject: &Option<String>,
    prepend: &Option<String>,
    replace: &Option<String>,
    env: &HookEnv,
) -> (r: String)
    ensures
        r@ == rewrite_text(command@, opt_view(*inject), opt_view(*prepend), opt_view(*replace), *env),
{
    let mut result = owned(command);
    match prepend {
        Some(p) => {
            let mut e = expand_env_vars(p.as_str(), env);
            push_char(&mut e, ' ');
            push_str(&mut e, result.as_str());
            result = e;
        },
        None => {},
    }
    let ghost a = result@;
    assert(a == match opt_view(*prepend) {
        Some(p) => env_expanded(p, *env) + seq![' '] + command@,
        None => command@,
    });
    match inject {
        Some(j) => {
            let e = expand_env_vars(j.as_str(), env);
            push_char(&mut result, ' ');
            push_str(&mut result, e.as_str());
        },
        None => {},
    }
    assert(result@ == match opt_view(*inject) {
        Some(j) => a + seq![' '] + env_expanded(j, *env),
        None => a,
    });
    match replace {
        Some(x) => {
            match compile(x.as_str()) {
                Some(re) => {
                    result = regex_replace_all_exec(&re, result.as_str(), x.as_str());
                },
                None => {},
            }
        },
        None => {},
    }
    result
}

/// Result of running the pipeline for one event.
#[derive(Debug)]
pub struct PipelineResult {
    /// When set, the tool call is denied with this message.
    pub deny: Option<String>,
    /// When set, the command is rewritten to this.
    pub rewrite: Option<String>,
    /// Messages to emit (from notify actions or captured command output).
    pub messages: Vec<String>,
    /// Labels of the rules that matched.
    pub matched_rules: Vec<String>,
}

/// The contents of a `PipelineResult`.
pub struct PipelineView {
    pub deny: Option<Seq<char>>,
    pub rewrite: Option<Seq<char>>,
    pub messages: Seq<Seq<char>>,
    pub matched: Seq<Seq<char>>,
}

impl View for PipelineResult {
    type V = PipelineView;

    open spec fn view(&self) -> PipelineView {
        PipelineView {
            deny: opt_view(self.deny),
            rewrite: opt_view(self.rewrite),
            messages: seq_views(self.messages@),
            matched: seq_views(self.matched_rules@),
        }
    }
}

pub open spec fn empty_view() -> PipelineView {
    PipelineView { deny: None, rewrite: None, messages: Seq::empty(), matched: Seq::empty() }
}

impl Default for PipelineResult {
    fn default() -> (r: Self)
        ensures
            r@ == empty_view(),
            r.matched_rules@.len() == 0,
    {
        let r = PipelineResult { deny: None, rewrite: None, messages: Vec::new(), matched_rules: Vec::new() };
        proof {
            assert(r@.messages =~= Seq::<Seq<char>>::empty());
            assert(r@.matched =~= Seq::<Seq<char>>::empty());
        }
        r
    }
}

pub open spec fn when_holds(w: When, exit_code: Option<i64>) -> bool {
    let code: i64 = match exit_code {
        Some(c) => c,
        None => 0,
    };
    match w {
        When::Always => true,
        When::OnSuccess => code == 0,
        When::OnFailure => code != 0,
    }
}

/// Whether `rule` applies to an event with this context: same event, the tool
/// accepted by the matcher, the pattern compiling and matching the target, the
/// target not containing `unless`, and the exit code agreeing with `when`.
pub open spec fn rule_selected(rule: HookRule, event: HookEvent, ctx: HookContext) -> bool {
    let target = or_empty(ctx.target);
    &&& rule.event == event
    &&& (rule.matcher matches Some(m) ==> tool_matches(m@, or_empty(ctx.tool_name)))
    &&& (rule.pattern matches Some(p) ==> pattern_finds(p@, target))
    &&& (rule.unless matches Some(u) ==> !has_substring(target, u@))
    &&& when_holds(rule.when, ctx.exit_code)
}

/// An `on_failure` rule is selected only after a command that failed (an exit
/// code present and not 0); an `on_success` rule only after one that did not
/// (no exit code, or 0).
pub proof fn lemma_when_follows_exit_code(rule: HookRule, event: HookEvent, ctx: HookContext)
    requires
        rule_selected(rule, event, ctx),
    ensures
        rule.when == When::OnFailure ==> (ctx.exit_code matches Some(c) && c != 0),
        rule.when == When::OnSuccess ==> (ctx.exit_code is None || ctx.exit_code == Some(0i64)),
{
}

/// Whether a rule is selected turns on `when` and the exit code alone once the
/// other conditions hold: for the same rule with the same event, tool and target,
/// `on_failure` selects exactly the contexts with a non-zero exit code and
/// `on_success` exactly the others.
pub proof fn lemma_when_partitions_contexts(rule: HookRule, event: HookEvent, ctx: HookContext)
    requires
        rule_selected(HookRule { when: When::Always, ..rule }, event, ctx),
    ensures
        rule.when == When::OnFailure ==> (rule_selected(rule, event, ctx) <==> (ctx.exit_code matches Some(c)
            && c != 0)),
        rule.when == When::OnSuccess ==> (rule_selected(rule, event, ctx) <==> !(ctx.exit_code matches Some(c)
            && c != 0)),
{
}

/// The label recorded for a matched rule: its own, or `rule-<n>` where `n`
/// counts the rules matched before it.
pub open spec fn rule_label(rule: HookRule, n: nat) -> Seq<char> {
    match rule.label {
        Some(l) => l@,
        None => "rule-"@ + decimal(n),
    }
}

pub open spec fn rewrite_step(
    r: PipelineView,
    target: Seq<char>,
    inject: Option<Seq<char>>,
    prepend: Option<Seq<char>>,
    replace: Option<Seq<char>>,
    env: HookEnv,
) -> PipelineView {
    let current = match r.rewrite {
        Some(x) => x,
        None => target,
    };
    let rewritten = rewrite_text(current, inject, prepend, replace, env);
    if rewritten != current {
        PipelineView { deny: r.deny, rewrite: Some(rewritten), messages: r.messages, matched: r.matched }
    } else {
        r
    }
}

/// Evaluation from rule `i` with result `r`: returns the index of the first
/// selected `Run` rule at or after `i` (its label recorded) and the result up
/// to it, or the number of rules and the final result when the rules run out
/// or a `Deny` is selected.
pub open spec fn advance(
    hooks: Seq<HookRule>,
    event: HookEvent,
    ctx: HookContext,
    env: HookEnv,
    i: int,
    r: PipelineView,
) -> (int, PipelineView)
    decreases hooks.len() - i,
{
    if i < 0 || i >= hooks.len() {
        (hooks.len() as int, r)
    } else if !rule_selected(hooks[i], event, ctx) {
        advance(hooks, event, ctx, env, i + 1, r)
    } else {
        let r1 = PipelineView {
            deny: r.deny,
            rewrite: r.rewrite,
            messages: r.messages,
            matched: r.matched.push(rule_label(hooks[i], r.matched.len())),
        };
        match hooks[i].action {
            HookAction::Deny { message } => (
                hooks.len() as int,
                PipelineView {
                    deny: Some(template_text(message@, ctx)),
                    rewrite: r1.rewrite,
                    messages: r1.messages,
                    matched: r1.matched,
                },
            ),
            HookAction::Rewrite { inject, prepend, replace } => advance(
                hooks,
                event,
                ctx,
                env,
                i + 1,
                rewrite_step(r1, or_empty(ctx.target), opt_view(inject), opt_view(prepend), opt_view(replace), env),
            ),
            HookAction::Run { .. } => (i, r1),
            HookAction::Notify { template } => advance(
                hooks,
                event,
                ctx,
                env,
                i + 1,
                PipelineView {
                    deny: r1.deny,
                    rewrite: r1.rewrite,
                    messages: r1.messages.push(template_text(template@, ctx)),
                    matched: r1.matched,
                },
            ),
        }
    }
}

/// Where an evaluation paused for a side-effect command.
pub struct PipelineCursor {
    pub next_rule: usize,
    pub result: PipelineResult,
}

/// What the caller does next: take the result, or run a command and resume.
pub enum PipelineStep {
    Finished(PipelineResult),
    RunCommand { command: Vec<String>, capture: bool, cursor: PipelineCursor },
}

/// `step` is what evaluation from rule `i` with result `r` comes to.
pub open spec fn step_is(
    step: PipelineStep,
    hooks: Seq<HookRule>,
    event: HookEvent,
    ctx: HookContext,
    env: HookEnv,
    i: int,
    r: PipelineView,
) -> bool {
    let (k, r2) = advance(hooks, event, ctx, env, i, r);
    if k >= hooks.len() {
        step matches PipelineStep::Finished(res) && res@ == r2
    } else {
        &&& step matches PipelineStep::RunCommand { command, capture, cursor }
        &&& hooks[k].action matches HookAction::Run { command: c, capture: cap }
        &&& seq_views(command@) == seq_views(c@)
        &&& capture == cap
        &&& cursor.next_rule == k + 1
        &&& cursor.result@ == r2
    }
}

fn push_label(result: &mut PipelineResult, rule: &HookRule)
    requires
        old(result).matched_rules@.len() < u64::MAX,
    ensures
        final(result).matched_rules@.len() == old(result).matched_rules@.len() + 1,
        final(result)@ == (PipelineView {
            deny: old(result)@.deny,
            rewrite: old(result)@.rewrite,
            messages: old(result)@.messages,
            matched: old(result)@.matched.push(rule_label(*rule, old(result)@.matched.len())),
        }),
{
    let label = match &rule.label {
        Some(l) => l.clone(),
        None => {
            let mut s = owned("rule-");
            let d = decimal_string(result.matched_rules.len() as u64);
            push_str(&mut s, d.as_str());
            proof { reveal_strlit("rule-"); }
            s
        },
    };
    result.matched_rules.push(label);
    proof {
        assert(final(result)@.matched =~= old(result)@.matched.push(rule_label(*rule, old(result)@.matched.len())));
    }
}

fn rule_selected_exec(rule: &HookRule, event: HookEvent, ctx: &HookContext, target: &str) -> (b: bool)
    requires
        target@ == or_empty(ctx.target),
    ensures
        b == rule_selected(*rule, event, *ctx),
{
    if rule.event != event {
        return false;
    }
    match &rule.matcher {
        Some(m) => {
            let tool: &str = match &ctx.tool_name {
                Some(t) => t.as_str(),
                None => "",
            };
            proof {
                reveal_strlit("");
                assert(tool@ == or_empty(ctx.tool_name));
            }
            if !matches_tool(m.as_str(), tool) {
                return false;
            }
        },
        None => {},
    }
    match &rule.pattern {
        Some(p) => {
            match compile(p.as_str()) {
                Some(re) => {
                    if !is_match(&re, target) {
                        return false;
                    }
                },
                None => {
                    return false;
                },
            }
        },
        None => {},
    }
    match &rule.unless {
        Some(u) => {
            if contains_str(target, u.as_str()) {
                return false;
            }
        },
        None => {},
    }
    let code: i64 = match ctx.exit_code {
        Some(c) => c,
        None => 0,
    };
    match rule.when {
        When::Always => true,
        When::OnSuccess => code == 0,
        When::OnFailure => code != 0,
    }
}

fn clone_strings(v: &Vec<String>) -> (r: Vec<String>)
    ensures
        seq_views(r@) == seq_views(v@),
{
    let mut out: Vec<String> = Vec::new();
    let mut i: usize = 0;
    while i < v.len()
        invariant
            i <= v@.len(),
            out@.len() == i,
            forall|j: int| 0 <= j < i ==> out@[j]@ == v@[j]@,
        decreases v.len() - i,
    {
        let c = v[i].clone();
        assert(c == v@[i as int]);
        out.push(c);
        i += 1;
    }
    proof { assert(seq_views(out@) =~= seq_views(v@)); }
    out
}

/// Evaluate the rules from `start` on, until a selected `Run` rule, a `Deny`,
/// or the end.
#[verifier::loop_isolation(false)]
fn advance_exec(
    config: &HookPipelineConfig,
    event: HookEvent,
    ctx: &HookContext,
    env: &HookEnv,
    start: usize,
    result: PipelineResult,
) -> (step: PipelineStep)
    requires
        start <= config.hooks@.len(),
        result.matched_rules@.len() + config.hooks@.len() - start < u64::MAX,
    ensures
        step_is(step, config.hooks@, event, *ctx, *env, start as int, result@),
{
    let hooks = &config.hooks;
    let mut result = result;
    let target: &str = match &ctx.target {
        Some(t) => t.as_str(),
        None => "",
    };
    proof {
        reveal_strlit("");
        assert(target@ == or_empty(ctx.target));
    }
    let ghost r0 = result@;
    let mut i = start;
    while i < hooks.len()
        invariant
            start <= i <= hooks@.len(),
            hooks@ == config.hooks@,
            target@ == or_empty(ctx.target),
            result.matched_rules@.len() + hooks@.len() - i < u64::MAX,
            advance(hooks@, event, *ctx, *env, i as int, result@) == advance(hooks@, event, *ctx, *env, start as int, r0),
        decreases hooks.len() - i,
    {
        let rule = &hooks[i];
        if !rule_selected_exec(rule, event, ctx, target) {
            proof {
                assert(advance(hooks@, event, *ctx, *env, i as int, result@) == advance(hooks@, event, *ctx, *env, i + 1, result@));
            }
            i += 1;
            continue;
        }
        let ghost before = result@;
        push_label(&mut result, rule);
        match &rule.action {
            HookAction::Deny { message } => {
                let expanded = expand_template(message.as_str(), ctx);
                result.deny = Some(expanded);
                proof {
                    assert(advance(hooks@, event, *ctx, *env, i as int, before) == (hooks@.len() as int, result@));
                    assert(advance(config.hooks@, event, *ctx, *env, start as int, r0) == (config.hooks@.len() as int, result@));
                }
                return PipelineStep::Finished(result);
            },
            HookAction::Rewrite { inject, prepend, replace } => {
                let current: String = match &result.rewrite {
                    Some(x) => x.clone(),
                    None => owned(target),
                };
                let rewritten = apply_rewrite(current.as_str(), inject, prepend, replace, env);
                let ghost r1 = result@;
                if !str_eq(rewritten.as_str(), current.as_str()) {
                    result.rewrite = Some(rewritten);
                }
                proof {
                    assert(result@ == rewrite_step(r1, or_empty(ctx.target), opt_view(*inject), opt_view(*prepend), opt_view(*replace), *env));
                    assert(advance(hooks@, event, *ctx, *env, i as int, before) == advance(hooks@, event, *ctx, *env, i + 1, result@));
                }
            },
            HookAction::Run { command, capture } => {
                let cmd = clone_strings(command);
                proof {
                    assert(advance(hooks@, event, *ctx, *env, i as int, before) == (i as int, result@));
                }
                return PipelineStep::RunCommand {
                    command: cmd,
                    capture: *capture,
                    cursor: PipelineCursor { next_rule: i + 1, result },
                };
            },
            HookAction::Notify { template } => {
                let expanded = expand_template(template.as_str(), ctx);
                let ghost r1 = result@;
                result.messages.push(expanded);
                proof {
                    assert(result@.messages =~= r1.messages.push(template_text(template@, *ctx)));
                    assert(advance(hooks@, event, *ctx, *env, i as int, before) == advance(hooks@, event, *ctx, *env, i + 1, result@));
                }
            },
        }
        i += 1;
    }
    PipelineStep::Finished(result)
}

/// Run the rules for `ctx.event` in order, up to the first selected `Run`
/// rule, whose command the caller runs before calling `resume_pipeline`.
/// Without an event nothing is selected.
pub fn run_pipeline(config: &HookPipelineConfig, ctx: &HookContext, env: &HookEnv) -> (step: PipelineStep)
    requires
        ctx.event is Some ==> config.hooks@.len() < u64::MAX,
    ensures
        match ctx.event {
            None => step matches PipelineStep::Finished(r) && r@ == empty_view(),
            Some(e) => step_is(step, config.hooks@, e, *ctx, *env, 0, empty_view()),
        },
{
    let result = PipelineResult::default();
    match ctx.event {
        None => PipelineStep::Finished(result),
        Some(event) => advance_exec(config, event, ctx, env, 0, result),
    }
}

/// The result after the command of rule `k` ran: with `capture`, its output
/// (present when the command ran and succeeded), trimmed, becomes a message
/// unless it is empty.
pub open spec fn after_run(hooks: Seq<HookRule>, k: int, r: PipelineView, output: Option<Seq<char>>) -> PipelineView {
    let captured = 0 <= k < hooks.len() && (hooks[k].action matches HookAction::Run { capture, .. } && capture);
    if captured && (output matches Some(o) && trim(o).len() > 0) {
        PipelineView {
            deny: r.deny,
            rewrite: r.rewrite,
            messages: r.messages.push(trim(output->0)),
            matched: r.matched,
        }
    } else {
        r
    }
}

/// Continue an evaluation paused at a `Run` rule, given the command's standard
/// output when it ran and exited successfully.
pub fn resume_pipeline(
    config: &HookPipelineConfig,
    ctx: &HookContext,
    env: &HookEnv,
    cursor: PipelineCursor,
    output: Option<String>,
) -> (step: PipelineStep)
    requires
        cursor.result.matched_rules@.len() + config.hooks@.len() < u64::MAX,
    ensures
        ({
            let next = if cursor.next_rule <= config.hooks@.len() { cursor.next_rule as int } else { config.hooks@.len() as int };
            let r = after_run(config.hooks@, cursor.next_rule - 1, cursor.result@, opt_view(output));
            match ctx.event {
                None => step matches PipelineStep::Finished(res) && res@ == r,
                Some(e) => step_is(step, config.hooks@, e, *ctx, *env, next, r),
            }
        }),
{
    let mut result = cursor.result;
    let n = config.hooks.len();
    let next = if cursor.next_rule <= n { cursor.next_rule } else { n };
    if cursor.next_rule >= 1 && cursor.next_rule <= n {
        match &config.hooks[cursor.next_rule - 1].action {
            HookAction::Run { capture, .. } => {
                if *capture {
                    match &output {
                        Some(o) => {
                            let t = crate::text::trimmed(o.as_str());
                            if !t.as_str().is_empty() {
                                let ghost before = result@;
                                result.messages.push(t);
                                proof {
                                    assert(result@.messages =~= before.messages.push(trim(o@)));
                                }
                            }
                        },
                        None => {},
                    }
                }
            },
            _ => {},
        }
    }
    match ctx.event {
        None => PipelineStep::Finished(result),
        Some(event) => advance_exec(config, event, ctx, env, next, result),
    }
}

/// The first `Deny` wins: when evaluating the rules denies, rules appended
/// after them change nothing of the result.
pub proof fn lemma_deny_ignores_later_rules(
    hooks: Seq<HookRule>,
    extra: Seq<HookRule>,
    event: HookEvent,
    ctx: HookContext,
    env: HookEnv,
    i: int,
    r: PipelineView,
)
    requires
        0 <= i <= hooks.len(),
        r.deny is None,
        advance(hooks, event, ctx, env, i, r).1.deny is Some,
    ensures
        advance(hooks + extra, event, ctx, env, i, r).1 == advance(hooks, event, ctx, env, i, r).1,
    decreases hooks.len() - i,
{
    let all = hooks + extra;
    if i == hooks.len() {
        assert(advance(hooks, event, ctx, env, i, r).1 == r);
    } else {
        assert(all[i] == hooks[i]);
        if !rule_selected(hooks[i], event, ctx) {
            lemma_deny_ignores_later_rules(hooks, extra, event, ctx, env, i + 1, r);
        } else {
            let r1 = PipelineView {
                deny: r.deny,
                rewrite: r.rewrite,
                messages: r.messages,
                matched: r.matched.push(rule_label(hooks[i], r.matched.len())),
            };
            match hooks[i].action {
                HookAction::Deny { message } => {},
                HookAction::Rewrite { inject, prepend, replace } => {
                    lemma_deny_ignores_later_rules(
                        hooks,
                        extra,
                        event,
                        ctx,
                        env,
                        i + 1,
                        rewrite_step(r1, or_empty(ctx.target), opt_view(inject), opt_view(prepend), opt_view(replace), env),
                    );
                },
                HookAction::Run { .. } => {},
                HookAction::Notify { template } => {
                    lemma_deny_ignores_later_rules(
                        hooks,
                        extra,
                        event,
                        ctx,
                        env,
                        i + 1,
                        PipelineView {
                            deny: r1.deny,
                            rewrite: r1.rewrite,
                            messages: r1.messages.push(template_text(template@, ctx)),
                            matched: r1.matched,
                        },
                    );
                },
            }
        }
    }
}

/// Severity of a configuration diagnostic.
#[derive(Debug, Clone, Copy, PartialEq, Eq, Structural)]
pub enum DiagLevel {
    Error,
    Warning,
}

/// A diagnostic about one rule of a hook configuration.
#[derive(Debug)]
pub struct HookDiagnostic {
    pub level: DiagLevel,
    pub rule_index: usize,
    pub label: String,
    pub message: String,
}

pub type DiagView = (DiagLevel, nat, Seq<char>, Seq<char>);

pub open spec fn diag_views(v: Seq<HookDiagnostic>) -> Seq<DiagView> {
    v.map_values(|d: HookDiagnostic| (d.level, d.rule_index as nat, d.label@, d.message@))
}

/// The name a diagnostic gives rule `i`: its label, or `hooks[i]`.
pub open spec fn diag_label(rule: HookRule, i: nat) -> Seq<char> {
    match rule.label {
        Some(l) => l@,
        None => "hooks["@ + decimal(i) + "]"@,
    }
}

pub open spec fn blank_command(c: Seq<String>) -> bool {
    forall|k: int| 0 <= k < c.len() ==> trim(#[trigger] c[k]@).len() == 0
}

/// What structural validation reports of rule `i`: a pattern or an `unless`
/// that does not compile as a regex, and a `Run` command that is empty or
/// all blank.
pub open spec fn rule_validation(rule: HookRule, i: nat) -> Seq<DiagView> {
    let label = diag_label(rule, i);
    let a: Seq<DiagView> = match rule.pattern {
        Some(p) => if !regex_compiles(p@) {
            seq![(DiagLevel::Error, i, label, "invalid regex pattern: "@ + p@)]
        } else {
            seq![]
        },
        None => seq![],
    };
    let b: Seq<DiagView> = match rule.unless {
        Some(u) => if !regex_compiles(u@) {
            seq![(DiagLevel::Error, i, label, "invalid unless regex: "@ + u@)]
        } else {
            seq![]
        },
        None => seq![],
    };
    let c: Seq<DiagView> = match rule.action {
        HookAction::Run { command, .. } => if blank_command(command@) {
            seq![(DiagLevel::Error, i, label, "run action has empty command"@)]
        } else {
            seq![]
        },
        _ => seq![],
    };
    a + b + c
}

/// The diagnostics of the first `n` rules, in rule order.
pub open spec fn validation(hooks: Seq<HookRule>, n: nat) -> Seq<DiagView>
    decreases n,
{
    if n == 0 || n > hooks.len() {
        seq![]
    } else {
        validation(hooks, (n - 1) as nat) + rule_validation(hooks[n - 1], (n - 1) as nat)
    }
}

/// The style lint of rule `i`: a deny without a pattern, a notify with a
/// blank template, and a label without a `/` namespace.
pub open spec fn rule_lint(rule: HookRule, i: nat) -> Seq<DiagView> {
    let label = diag_label(rule, i);
    let a: Seq<DiagView> = if rule.action is Deny && rule.pattern is None {
        seq![(
            DiagLevel::Warning,
            i,
            label,
            "deny-by-default: deny rule has no pattern, blocks all matching commands for this event"@,
        )]
    } else {
        seq![]
    };
    let b: Seq<DiagView> = match rule.action {
        HookAction::Notify { template } => if trim(template@).len() == 0 {
            seq![(DiagLevel::Error, i, label, "notify action has empty template"@)]
        } else {
            seq![]
        },
        _ => seq![],
    };
    let c: Seq<DiagView> = match rule.label {
        Some(l) => if !l@.contains('/') {
            seq![(DiagLevel::Warning, i, label, "label should use namespace/name convention (e.g. \"guardian/force-push\")"@)]
        } else {
            seq![]
        },
        None => seq![],
    };
    a + b + c
}

pub open spec fn lint(hooks: Seq<HookRule>, n: nat) -> Seq<DiagView>
    decreases n,
{
    if n == 0 || n > hooks.len() {
        seq![]
    } else {
        lint(hooks, (n - 1) as nat) + rule_lint(hooks[n - 1], (n - 1) as nat)
    }
}

fn diag_label_exec(rule: &HookRule, i: usize) -> (s: String)
    ensures
        s@ == diag_label(*rule, i as nat),
{
    match &rule.label {
        Some(l) => l.clone(),
        None => {
            proof {
                reveal_strlit("hooks[");
                reveal_strlit("]");
            }
            let mut s = owned("hooks[");
            let d = decimal_string(i as u64);
            push_str(&mut s, d.as_str());
            push_str(&mut s, "]");
            s
        },
    }
}

fn diag(level: DiagLevel, i: usize, label: &String, message: String) -> (d: HookDiagnostic)
    ensures
        d.level == level,
        d.rule_index == i,
        d.label@ == label@,
        d.message@ == message@,
{
    HookDiagnostic { level, rule_index: i, label: label.clone(), message }
}

fn prefixed(prefix: &str, rest: &str) -> (s: String)
    ensures
        s@ == prefix@ + rest@,
{
    let mut s = owned(prefix);
    push_str(&mut s, rest);
    s
}

fn all_blank(c: &Vec<String>) -> (b: bool)
    ensures
        b == blank_command(c@),
{
    let mut k: usize = 0;
    while k < c.len()
        invariant
            k <= c@.len(),
            forall|j: int| 0 <= j < k ==> trim(#[trigger] c@[j]@).len() == 0,
        decreases c.len() - k,
    {
        let t = crate::text::trimmed(c[k].as_str());
        if !t.as_str().is_empty() {
            return false;
        }
        k += 1;
    }
    true
}

/// Structural validation: what cannot work at run time. Every diagnostic it
/// gives is an error, so they come errors first, in rule order.
pub fn validate_config(config: &HookPipelineConfig) -> (diags: Vec<HookDiagnostic>)
    ensures
        diag_views(diags@) == validation(config.hooks@, config.hooks@.len()),
        forall|k: int| 0 <= k < diags@.len() ==> (#[trigger] diags@[k]).level == DiagLevel::Error,
{
    let mut diags: Vec<HookDiagnostic> = Vec::new();
    let mut i: usize = 0;
    while i < config.hooks.len()
        invariant
            i <= config.hooks@.len(),
            diag_views(diags@) == validation(config.hooks@, i as nat),
            forall|k: int| 0 <= k < diags@.len() ==> (#[trigger] diags@[k]).level == DiagLevel::Error,
        decreases config.hooks.len() - i,
    {
        let rule = &config.hooks[i];
        let label = diag_label_exec(rule, i);
        let ghost start = diags@;
        proof {
            reveal_strlit("invalid regex pattern: ");
            reveal_strlit("invalid unless regex: ");
            reveal_strlit("run action has empty command");
        }
        match &rule.pattern {
            Some(p) => {
                if compile(p.as_str()).is_none() {
                    diags.push(diag(DiagLevel::Error, i, &label, prefixed("invalid regex pattern: ", p.as_str())));
                }
            },
            None => {},
        }
        match &rule.unless {
            Some(u) => {
                if compile(u.as_str()).is_none() {
                    diags.push(diag(DiagLevel::Error, i, &label, prefixed("invalid unless regex: ", u.as_str())));
                }
            },
            None => {},
        }
        match &rule.action {
            HookAction::Run { command, .. } => {
                if all_blank(command) {
                    diags.push(diag(DiagLevel::Error, i, &label, owned("run action has empty command")));
                }
            },
            _ => {},
        }
        proof {
            assert(diag_views(diags@) =~= diag_views(start) + rule_validation(config.hooks@[i as int], i as nat));
        }
        i += 1;
    }
    diags
}

/// Optional style lint, stricter than `validate_config`.
pub fn lint_config(config: &HookPipelineConfig) -> (diags: Vec<HookDiagnostic>)
    ensures
        diag_views(diags@) == lint(config.hooks@, config.hooks@.len()),
{
    let mut diags: Vec<HookDiagnostic> = Vec::new();
    let mut i: usize = 0;
    while i < config.hooks.len()
        invariant
            i <= config.hooks@.len(),
            diag_views(diags@) == lint(config.hooks@, i as nat),
        decreases config.hooks.len() - i,
    {
        let rule = &config.hooks[i];
        let label = diag_label_exec(rule, i);
        let ghost start = diags@;
        proof {
            reveal_strlit("deny-by-default: deny rule has no pattern, blocks all matching commands for this event");
            reveal_strlit("notify action has empty template");
            reveal_strlit("label should use namespace/name convention (e.g. \"guardian/force-push\")");
        }
        let is_deny = match &rule.action {
            HookAction::Deny { .. } => true,
            _ => false,
        };
        if is_deny && rule.pattern.is_none() {
            diags.push(diag(
                DiagLevel::Warning,
                i,
                &label,
                owned("deny-by-default: deny rule has no pattern, blocks all matching commands for this event"),
            ));
        }
        match &rule.action {
            HookAction::Notify { template } => {
                let t = crate::text::trimmed(template.as_str());
                if t.as_str().is_empty() {
                    diags.push(diag(DiagLevel::Error, i, &label, owned("notify action has empty template")));
                }
            },
            _ => {},
        }
        match &rule.label {
            Some(l) => {
                if !crate::text::contains_char(l.as_str(), '/') {
                    diags.push(diag(
                        DiagLevel::Warning,
                        i,
                        &label,
                        owned("label should use namespace/name convention (e.g. \"guardian/force-push\")"),
                    ));
                }
            },
            None => {},
        }
        proof {
            assert(diag_views(diags@) =~= diag_views(start) + rule_lint(config.hooks@[i as int], i as nat));
        }
        i += 1;
    }
    diags
}


/// The project's `.ctx/crs-hooks.toml` nearest at or above `start`, as
/// `probe` reports files present.
pub fn find_hooks_toml_from<F: Fn(&str) -> bool>(start: &str, probe: F) -> (r: Option<String>)
    requires
        forall|s: &str| call_requires(probe, (s,)),
    ensures
        first_present(probe, upward_candidates(start@, ".ctx/crs-hooks.toml"@), r),
{
    find_upward(start, ".ctx/crs-hooks.toml", probe)
}


proof fn lemma_replace_all_absent(s: Seq<char>, from: Seq<char>, to: Seq<char>)
    requires
        from.len() > 0,
        !s.contains(from[0]),
    ensures
        replace_all(s, from, to) == s,
    decreases s.len(),
{
    if !(from.len() == 0 || s.len() < from.len()) {
        if s.take(from.len() as int) == from {
            assert(s.take(from.len() as int)[0] == s[0]);
            assert(s.contains(s[0]));
        } else {
            assert forall|c: char| s.drop_first().contains(c) implies s.contains(c) by {
                let k = choose|k: int| 0 <= k < s.drop_first().len() && s.drop_first()[k] == c;
                assert(s[k + 1] == c);
            }
            lemma_replace_all_absent(s.drop_first(), from, to);
            assert(seq![s[0]] + s.drop_first() =~= s);
        }
    }
}

/// Text without a `$` holds no reference: expansion leaves it as it is.
pub proof fn lemma_env_expanded_plain(p: Seq<char>, env: HookEnv)
    requires
        !p.contains('$'),
    ensures
        env_expanded(p, env) == p,
{
    reveal_strlit("${GIT_BRANCH_SLUG}");
    reveal_strlit("${");
    lemma_replace_all_absent(p, "${GIT_BRANCH_SLUG}"@, or_empty(env.branch_slug));
    if has_substring(p, "${"@) {
        let i = choose|i: int| occurs_at(p, "${"@, i);
        assert(p.subrange(i, i + 2)[0] == p[i]);
        assert(p.contains(p[i]));
    }
}

/// Whether `rule` is an unconditional rule of `event` that only prepends `p`.
pub open spec fn plain_prepend_rule(rule: HookRule, event: HookEvent, p: Seq<char>) -> bool {
    &&& rule.event == event
    &&& rule.matcher is None
    &&& rule.pattern is None
    &&& rule.unless is None
    &&& rule.when == When::Always
    &&& rule.label is None
    &&& (rule.action matches HookAction::Rewrite { inject, prepend, replace }
        && inject is None && replace is None && (prepend matches Some(x) && x@ == p))
}

/// Rewrites accumulate: a second prepending rule applies to the first one's
/// output, not to the original target, and both rules are recorded in order.
pub proof fn lemma_rewrites_accumulate(
    ra: HookRule,
    rb: HookRule,
    event: HookEvent,
    ctx: HookContext,
    env: HookEnv,
    p1: Seq<char>,
    p2: Seq<char>,
)
    requires
        plain_prepend_rule(ra, event, p1),
        plain_prepend_rule(rb, event, p2),
        !p1.contains('$'),
        !p2.contains('$'),
    ensures
        advance(seq![ra, rb], event, ctx, env, 0, empty_view()) == (2int, PipelineView {
            deny: None,
            rewrite: Some(p2 + seq![' '] + p1 + seq![' '] + or_empty(ctx.target)),
            messages: Seq::empty(),
            matched: seq!["rule-0"@, "rule-1"@],
        }),
{
    reveal_strlit("rule-0");
    reveal_strlit("rule-1");
    reveal_strlit("rule-");
    lemma_env_expanded_plain(p1, env);
    lemma_env_expanded_plain(p2, env);
    let hooks = seq![ra, rb];
    let t = or_empty(ctx.target);
    assert(hooks[0] == ra && hooks[1] == rb);
    assert(decimal(0) =~= seq!['0']);
    assert(decimal(1) =~= seq!['1']);
    assert("rule-"@ + decimal(0) =~= "rule-0"@);
    assert("rule-"@ + decimal(1) =~= "rule-1"@);
    let x1 = p1 + seq![' '] + t;
    assert(x1 != t) by { assert(x1.len() > t.len()); }
    let x2 = p2 + seq![' '] + x1;
    assert(x2 != x1) by { assert(x2.len() > x1.len()); }
    assert(seq!["rule-0"@].push("rule-1"@) =~= seq!["rule-0"@, "rule-1"@]);
    assert(Seq::<Seq<char>>::empty().push("rule-0"@) =~= seq!["rule-0"@]);
    let v0 = empty_view();
    let v1 = PipelineView { deny: None, rewrite: Some(x1), messages: Seq::empty(), matched: seq!["rule-0"@] };
    let v2 = PipelineView { deny: None, rewrite: Some(x2), messages: Seq::empty(), matched: seq!["rule-0"@, "rule-1"@] };
    assert(rule_selected(ra, event, ctx));
    assert(rule_selected(rb, event, ctx));
    assert(rule_label(ra, 0) == "rule-0"@);
    assert(rule_label(rb, 1) == "rule-1"@);
    let r1 = PipelineView { deny: None, rewrite: None, messages: Seq::empty(), matched: seq!["rule-0"@] };
    assert(rewrite_text(t, None, Some(p1), None, env) == x1);
    assert(rewrite_step(r1, t, None, Some(p1), None, env) == v1);
    assert(advance(hooks, event, ctx, env, 0, v0) == advance(hooks, event, ctx, env, 1, v1));
    let r2 = PipelineView { deny: None, rewrite: Some(x1), messages: Seq::empty(), matched: seq!["rule-0"@, "rule-1"@] };
    assert(rewrite_text(x1, None, Some(p2), None, env) == x2);
    assert(rewrite_step(r2, t, None, Some(p2), None, env) == v2);
    assert(advance(hooks, event, ctx, env, 1, v1) == advance(hooks, event, ctx, env, 2, v2));
    assert(advance(hooks, event, ctx, env, 2, v2) == (2int, v2));
    assert(x2 =~= p2 + seq![' '] + p1 + seq![' '] + t);
}


/// Labels of the rules selected from `i` on, numbered from `n`, up to and
/// including the first selected `Deny`.
pub open spec fn selected_labels(hooks: Seq<HookRule>, event: HookEvent, ctx: HookContext, i: int, n: nat) -> Seq<Seq<char>>
    decreases hooks.len() - i,
{
    if i < 0 || i >= hooks.len() {
        seq![]
    } else if !rule_selected(hooks[i], event, ctx) {
        selected_labels(hooks, event, ctx, i + 1, n)
    } else if hooks[i].action is Deny {
        seq![rule_label(hooks[i], n)]
    } else {
        seq![rule_label(hooks[i], n)] + selected_labels(hooks, event, ctx, i + 1, n + 1)
    }
}

/// Whether some rule from `i` on is selected and denies.
pub open spec fn selected_deny(hooks: Seq<HookRule>, event: HookEvent, ctx: HookContext, i: int) -> bool {
    exists|j: int| i <= j < hooks.len() && 0 <= j && rule_selected(hooks[j], event, ctx) && #[trigger] hooks[j].action is Deny
}

/// No rule from `i` on is a selected `Run`.
pub open spec fn no_selected_run(hooks: Seq<HookRule>, event: HookEvent, ctx: HookContext, i: int) -> bool {
    forall|j: int| i <= j < hooks.len() && 0 <= j && rule_selected(hooks[j], event, ctx) ==> !(#[trigger] hooks[j].action is Run)
}

/// The deny cut-off: with no side-effect rule selected, evaluation runs to the
/// end, denies exactly when some selected rule denies, and records the labels
/// of the selected rules in order up to and including the first that denies.
pub proof fn lemma_deny_cutoff_and_labels(
    hooks: Seq<HookRule>,
    event: HookEvent,
    ctx: HookContext,
    env: HookEnv,
    i: int,
    r: PipelineView,
)
    requires
        0 <= i <= hooks.len(),
        r.deny is None,
        no_selected_run(hooks, event, ctx, i),
    ensures
        advance(hooks, event, ctx, env, i, r).0 == hooks.len(),
        advance(hooks, event, ctx, env, i, r).1.deny is Some <==> selected_deny(hooks, event, ctx, i),
        advance(hooks, event, ctx, env, i, r).1.matched == r.matched + selected_labels(hooks, event, ctx, i, r.matched.len()),
    decreases hooks.len() - i,
{
    if i == hooks.len() {
        assert(r.matched + seq![] =~= r.matched);
    } else {
        let n = r.matched.len();
        if !rule_selected(hooks[i], event, ctx) {
            lemma_deny_cutoff_and_labels(hooks, event, ctx, env, i + 1, r);
            assert(selected_deny(hooks, event, ctx, i) <==> selected_deny(hooks, event, ctx, i + 1)) by {
                if selected_deny(hooks, event, ctx, i) {
                    let j = choose|j: int| i <= j < hooks.len() && 0 <= j && rule_selected(hooks[j], event, ctx) && #[trigger] hooks[j].action is Deny;
                    assert(j != i);
                }
            }
        } else {
            let lab = rule_label(hooks[i], n);
            let r1 = PipelineView { deny: r.deny, rewrite: r.rewrite, messages: r.messages, matched: r.matched.push(lab) };
            assert(r.matched.push(lab) =~= r.matched + seq![lab]);
            match hooks[i].action {
                HookAction::Deny { message } => {
                    assert(selected_deny(hooks, event, ctx, i));
                },
                HookAction::Run { .. } => {
                    assert(!(hooks[i].action is Run));
                },
                HookAction::Rewrite { inject, prepend, replace } => {
                    let r2 = rewrite_step(r1, or_empty(ctx.target), opt_view(inject), opt_view(prepend), opt_view(replace), env);
                    assert(r2.deny is None && r2.matched == r1.matched);
                    lemma_deny_cutoff_and_labels(hooks, event, ctx, env, i + 1, r2);
                    assert(r1.matched.len() == n + 1);
                    assert(r.matched + selected_labels(hooks, event, ctx, i, n)
                        =~= r1.matched + selected_labels(hooks, event, ctx, i + 1, (n + 1) as nat));
                    assert(selected_deny(hooks, event, ctx, i) <==> selected_deny(hooks, event, ctx, i + 1)) by {
                        if selected_deny(hooks, event, ctx, i) {
                            let j = choose|j: int| i <= j < hooks.len() && 0 <= j && rule_selected(hooks[j], event, ctx) && #[trigger] hooks[j].action is Deny;
                            assert(j != i);
                        }
                    }
                },
                HookAction::Notify { template } => {
                    let r2 = PipelineView {
                        deny: r1.deny,
                        rewrite: r1.rewrite,
                        messages: r1.messages.push(template_text(template@, ctx)),
                        matched: r1.matched,
                    };
                    lemma_deny_cutoff_and_labels(hooks, event, ctx, env, i + 1, r2);
                    assert(r1.matched.len() == n + 1);
                    assert(r.matched + selected_labels(hooks, event, ctx, i, n)
                        =~= r1.matched + selected_labels(hooks, event, ctx, i + 1, (n + 1) as nat));
                    assert(selected_deny(hooks, event, ctx, i) <==> selected_deny(hooks, event, ctx, i + 1)) by {
                        if selected_deny(hooks, event, ctx, i) {
                            let j = choose|j: int| i <= j < hooks.len() && 0 <= j && rule_selected(hooks[j], event, ctx) && #[trigger] hooks[j].action is Deny;
                            assert(j != i);
                        }
                    }
                },
            }
        }
    }
}

} // verus!
