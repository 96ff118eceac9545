//! Course-correct rules: which commands are blocked, and with what message.
use vstd::prelude::*;
use crate::matcher::{CompiledRegex, compile, find, is_match, pattern_finds, regex_compiles, regex_finds};
use crate::pipeline::{
    pipe_stage_commands, pipe_stages, segments, sequential_segments, stage_commands, stages, views,
};
use crate::shell::{parsed_argv, parse};
use crate::text::{chars_of, contains_chars, contains_char, has_substring, owned, push_str, str_eq};

verus! {

#[derive(Debug, Clone)]
pub struct Rule {
    pub id: String,
    pub enabled: bool,
    pub pattern: String,
    pub pattern_flags: String,
    pub exceptions: Vec<String>,
    /// Command names this rule targets (e.g. `["grep", "rg"]`).
    /// When non-empty, the rule only fires if argv[0] of at least one pipe
    /// stage matches. When empty, the regex alone decides.
    pub target_commands: Vec<String>,
    pub message: Option<String>,
}

#[derive(Debug, Clone)]
pub struct FailureLearning {
    pub enabled: bool,
    pub block_threshold: usize,
    pub window_seconds: u64,
    pub state_file: Option<String>,
    pub max_tracked_commands: usize,
    pub cleanup_after_seconds: u64,
    pub message_template: Option<String>,
}

#[derive(Debug, Clone)]
pub struct RulesConfig {
    pub rules: Vec<Rule>,
    pub failure_learning: FailureLearning,
}

pub fn default_true() -> (b: bool)
    ensures
        b,
{
    true
}

pub fn default_block_threshold() -> (n: usize)
    ensures
        n == 3,
{
    3
}

pub fn default_window() -> (n: u64)
    ensures
        n == 300,
{
    300
}

pub fn default_max_entries() -> (n: usize)
    ensures
        n == 200,
{
    200
}

pub fn default_cleanup() -> (n: u64)
    ensures
        n == 3600,
{
    3600
}

pub open spec fn is_default_failure_learning(fl: FailureLearning) -> bool {
    &&& fl.enabled
    &&& fl.block_threshold == 3
    &&& fl.window_seconds == 300
    &&& fl.state_file is None
    &&& fl.max_tracked_commands == 200
    &&& fl.cleanup_after_seconds == 3600
    &&& fl.message_template is None
}

impl Default for FailureLearning {
    fn default() -> (fl: Self)
        ensures
            is_default_failure_learning(fl),
    {
        FailureLearning {
            enabled: default_true(),
            block_threshold: default_block_threshold(),
            window_seconds: default_window(),
            state_file: None,
            max_tracked_commands: default_max_entries(),
            cleanup_after_seconds: default_cleanup(),
            message_template: None,
        }
    }
}

impl RulesConfig {
    /// A configuration with no rules and default failure learning.
    pub fn empty() -> (c: Self)
        ensures
            c.rules@.len() == 0,
            is_default_failure_learning(c.failure_learning),
    {
        RulesConfig { rules: Vec::new(), failure_learning: FailureLearning::default() }
    }
}

// ---------------------------------------------------------------------------
// What a rule means
// ---------------------------------------------------------------------------

pub open spec fn seq_views(v: Seq<String>) -> Seq<Seq<char>> {
    v.map_values(|w: String| w@)
}

/// The pattern a rule compiles: prefixed with `(?i)` when its flags contain `i`
/// or the pattern itself already contains `(?i)`.
pub open spec fn effective_pattern(r: Rule) -> Seq<char> {
    if r.pattern_flags@.contains('i') || has_substring(r.pattern@, "(?i)"@) {
        "(?i)"@ + r.pattern@
    } else {
        r.pattern@
    }
}

/// With no targets every command qualifies; otherwise some pipe stage's
/// command name must be one of the targets.
pub open spec fn targets_match_spec(cmd: Seq<char>, targets: Seq<Seq<char>>) -> bool {
    targets.len() == 0 || exists|i: int, j: int|
        0 <= i < stage_commands(cmd).len() && 0 <= j < targets.len() && targets[j]
            == stage_commands(cmd)[i]
}

/// Some exception pattern compiles and matches the command.
pub open spec fn excepted(cmd: Seq<char>, exceptions: Seq<Seq<char>>) -> bool {
    exists|k: int| 0 <= k < exceptions.len() && pattern_finds(exceptions[k], cmd)
}

/// Whether `r` blocks `cmd`.
pub open spec fn rule_fires(cmd: Seq<char>, r: Rule) -> bool {
    &&& r.enabled
    &&& targets_match_spec(cmd, seq_views(r.target_commands@))
    &&& pattern_finds(effective_pattern(r), cmd)
    &&& !excepted(cmd, seq_views(r.exceptions@))
}

/// Index of the first rule at or after `k` that blocks `cmd`.
pub open spec fn first_firing_from(cmd: Seq<char>, rules: Seq<Rule>, k: int) -> Option<int>
    decreases rules.len() - k,
{
    if k < 0 || k >= rules.len() {
        None
    } else if rule_fires(cmd, rules[k]) {
        Some(k)
    } else {
        first_firing_from(cmd, rules, k + 1)
    }
}

pub open spec fn first_firing(cmd: Seq<char>, rules: Seq<Rule>) -> Option<int> {
    first_firing_from(cmd, rules, 0)
}

/// The first pipe stage whose command name is one of `targets`.
pub open spec fn first_target_stage(st: Seq<Seq<char>>, targets: Seq<Seq<char>>, k: int) -> Option<Seq<char>>
    decreases st.len() - k,
{
    if k < 0 || k >= st.len() {
        None
    } else if (match shell_split_head(st[k]) {
        Some(h) => targets.contains(h),
        None => false,
    }) {
        Some(st[k])
    } else {
        first_target_stage(st, targets, k + 1)
    }
}

pub open spec fn shell_split_head(stage: Seq<char>) -> Option<Seq<char>> {
    match parsed_argv(stage) {
        Some(w) => Some(w[0]),
        None => None,
    }
}

/// The stage reported in a deny message: none for rules without targets.
pub open spec fn triggering_stage_spec(cmd: Seq<char>, targets: Seq<Seq<char>>) -> Option<Seq<char>> {
    if targets.len() == 0 {
        None
    } else {
        first_target_stage(stages(cmd), targets, 0)
    }
}

pub open spec fn base_message(r: Rule) -> Seq<char> {
    match r.message {
        Some(m) => m@,
        None => "Blocked by rule '"@ + r.id@ + "'."@,
    }
}

/// The deny message: the rule's message, followed by the triggering stage when
/// the rule targets commands.
pub open spec fn deny_message(cmd: Seq<char>, r: Rule) -> Seq<char> {
    match triggering_stage_spec(cmd, seq_views(r.target_commands@)) {
        Some(st) => base_message(r) + "\n\nBlocked command: `"@ + st + "`"@,
        None => base_message(r),
    }
}

/// `(rule id, deny message)` of the first rule that blocks `cmd`.
pub open spec fn check_spec(cmd: Seq<char>, rules: Seq<Rule>) -> Option<(Seq<char>, Seq<char>)> {
    match first_firing(cmd, rules) {
        Some(k) => Some((rules[k].id@, deny_message(cmd, rules[k]))),
        None => None,
    }
}

pub open spec fn pair_view(r: Option<(String, String)>) -> Option<(Seq<char>, Seq<char>)> {
    match r {
        Some(p) => Some((p.0@, p.1@)),
        None => None,
    }
}

pub open spec fn opt_view(r: Option<String>) -> Option<Seq<char>> {
    match r {
        Some(s) => Some(s@),
        None => None,
    }
}

// ---------------------------------------------------------------------------
// Evaluation
// ---------------------------------------------------------------------------

fn contains_string(v: &Vec<String>, s: &str) -> (b: bool)
    ensures
        b == seq_views(v@).contains(s@),
{
    let mut i: usize = 0;
    while i < v.len()
        invariant
            i <= v@.len(),
            forall|j: int| 0 <= j < i ==> v@[j]@ != s@,
        decreases v.len() - i,
    {
        if str_eq(v[i].as_str(), s) {
            proof { assert(seq_views(v@)[i as int] == s@); }
            return true;
        }
        i += 1;
    }
    proof {
        if seq_views(v@).contains(s@) {
            let j = choose|j: int| 0 <= j < seq_views(v@).len() && seq_views(v@)[j] == s@;
            assert(v@[j]@ == s@);
        }
    }
    false
}

/// Whether some pipe stage's argv[0] is one of `targets`; `true` when `targets` is empty.
pub fn targets_match(command: &str, targets: &Vec<String>) -> (b: bool)
    ensures
        b == targets_match_spec(command@, seq_views(targets@)),
{
    if targets.len() == 0 {
        return true;
    }
    let cmds = pipe_stage_commands(command);
    let mut i: usize = 0;
    while i < cmds.len()
        invariant
            i <= cmds@.len(),
            targets@.len() > 0,
            cmds@.map_values(|w: String| w@) == stage_commands(command@),
            forall|a: int, j: int|
                0 <= a < i && 0 <= j < targets@.len() ==> targets@[j]@ != cmds@[a]@,
        decreases cmds.len() - i,
    {
        if contains_string(targets, cmds[i].as_str()) {
            proof {
                let j = choose|j: int| 0 <= j < seq_views(targets@).len() && seq_views(targets@)[j] == cmds@[i as int]@;
                assert(seq_views(targets@)[j] == stage_commands(command@)[i as int]);
            }
            return true;
        }
        proof {
            assert forall|j: int| 0 <= j < targets@.len() implies targets@[j]@ != cmds@[i as int]@ by {
                assert(seq_views(targets@)[j] == targets@[j]@);
            }
        }
        i += 1;
    }
    proof {
        assert forall|a: int, j: int|
            0 <= a < stage_commands(command@).len() && 0 <= j < seq_views(targets@).len() implies
            seq_views(targets@)[j] != stage_commands(command@)[a] by {
            assert(stage_commands(command@)[a] == cmds@[a]@);
        }
    }
    false
}

/// The pipe stage whose argv[0] triggered a targeted rule, for deny messages.
pub fn triggering_stage<'a>(command: &'a str, targets: &Vec<String>) -> (r: Option<&'a str>)
    ensures
        match r {
            Some(s) => triggering_stage_spec(command@, seq_views(targets@)) == Some(s@),
            None => triggering_stage_spec(command@, seq_views(targets@)) is None,
        },
{
    if targets.len() == 0 {
        return None;
    }
    let st = pipe_stages(command);
    let mut i: usize = 0;
    while i < st.len()
        invariant
            i <= st@.len(),
            targets@.len() > 0,
            views(st@) == stages(command@),
            first_target_stage(stages(command@), seq_views(targets@), 0) == first_target_stage(
                stages(command@),
                seq_views(targets@),
                i as int,
            ),
        decreases st.len() - i,
    {
        let parsed = parse(st[i]);
        let hit = match &parsed {
            Some(c) => contains_string(targets, c.argv[0].as_str()),
            None => false,
        };
        proof {
            assert(stages(command@)[i as int] == st@[i as int]@);
        }
        if hit {
            return Some(st[i]);
        }
        i += 1;
    }
    None
}

/// The rule's regex, with `(?i)` prepended for case-insensitive rules.
pub fn build_regex(rule: &Rule) -> (r: Option<CompiledRegex>)
    ensures
        r is Some <==> regex_compiles(effective_pattern(*rule)),
        r matches Some(c) ==> c@ == effective_pattern(*rule),
{
    let pv = chars_of(rule.pattern.as_str());
    let marker = chars_of("(?i)");
    let insensitive = contains_char(rule.pattern_flags.as_str(), 'i') || contains_chars(&pv, &marker);
    if insensitive {
        let mut p = owned("(?i)");
        push_str(&mut p, rule.pattern.as_str());
        compile(p.as_str())
    } else {
        compile(rule.pattern.as_str())
    }
}

fn is_excepted(command: &str, exceptions: &Vec<String>) -> (b: bool)
    ensures
        b == excepted(command@, seq_views(exceptions@)),
{
    let mut i: usize = 0;
    while i < exceptions.len()
        invariant
            i <= exceptions@.len(),
            forall|k: int| 0 <= k < i ==> !pattern_finds(#[trigger] exceptions@[k]@, command@),
        decreases exceptions.len() - i,
    {
        if find(exceptions[i].as_str(), command) {
            proof { assert(seq_views(exceptions@)[i as int] == exceptions@[i as int]@); }
            return true;
        }
        i += 1;
    }
    proof {
        if excepted(command@, seq_views(exceptions@)) {
            let k = choose|k: int| 0 <= k < seq_views(exceptions@).len() && pattern_finds(seq_views(exceptions@)[k], command@);
            assert(seq_views(exceptions@)[k] == exceptions@[k]@);
        }
    }
    false
}

/// Whether `rule` blocks `command`.
pub fn fires(command: &str, rule: &Rule) -> (b: bool)
    ensures
        b == rule_fires(command@, *rule),
{
    if !rule.enabled {
        return false;
    }
    if !targets_match(command, &rule.target_commands) {
        return false;
    }
    let re = match build_regex(rule) {
        Some(re) => re,
        None => return false,
    };
    if !is_match(&re, command) {
        return false;
    }
    !is_excepted(command, &rule.exceptions)
}

/// Index of the first rule that blocks `command`.
fn first_firing_index(command: &str, rules: &[Rule]) -> (r: Option<usize>)
    ensures
        match r {
            Some(k) => first_firing(command@, rules@) == Some(k as int) && k < rules@.len(),
            None => first_firing(command@, rules@) is None,
        },
{
    let mut i: usize = 0;
    while i < rules.len()
        invariant
            i <= rules@.len(),
            first_firing(command@, rules@) == first_firing_from(command@, rules@, i as int),
        decreases rules.len() - i,
    {
        if fires(command, &rules[i]) {
            return Some(i);
        }
        i += 1;
    }
    None
}

/// Returns the id of the first matching rule (respecting exceptions), `None` otherwise.
pub fn matched_rule_id(command: &str, rules: &[Rule]) -> (r: Option<String>)
    ensures
        opt_view(r) == (match first_firing(command@, rules@) {
            Some(k) => Some(rules@[k].id@),
            None => None,
        }),
{
    match first_firing_index(command, rules) {
        Some(k) => Some(rules[k].id.clone()),
        None => None,
    }
}

/// The deny message for `rule` on `command`.
fn deny_message_of(command: &str, rule: &Rule) -> (m: String)
    ensures
        m@ == deny_message(command@, *rule),
{
    let mut base = match &rule.message {
        Some(m) => m.clone(),
        None => {
            let mut b = owned("Blocked by rule '");
            push_str(&mut b, rule.id.as_str());
            push_str(&mut b, "'.");
            b
        },
    };
    match triggering_stage(command, &rule.target_commands) {
        Some(stage) => {
            push_str(&mut base, "\n\nBlocked command: `");
            push_str(&mut base, stage);
            push_str(&mut base, "`");
            base
        },
        None => base,
    }
}

/// Returns `(rule_id, deny_message)` of the first rule that blocks `command`, `None` otherwise.
///
/// When a rule has `target_commands`, the deny message names the pipe stage that
/// triggered the block.
pub fn check(command: &str, rules: &[Rule]) -> (r: Option<(String, String)>)
    ensures
        pair_view(r) == check_spec(command@, rules@),
{
    match first_firing_index(command, rules) {
        Some(k) => {
            let msg = deny_message_of(command, &rules[k]);
            Some((rules[k].id.clone(), msg))
        },
        None => None,
    }
}

/// The first sequential segment (in order) on which `check_spec` blocks.
pub open spec fn check_segments(segs: Seq<Seq<char>>, rules: Seq<Rule>, k: int) -> Option<(Seq<char>, Seq<char>)>
    decreases segs.len() - k,
{
    if k < 0 || k >= segs.len() {
        None
    } else if check_spec(segs[k], rules) is Some {
        check_spec(segs[k], rules)
    } else {
        check_segments(segs, rules, k + 1)
    }
}

/// The first sequential segment (in order) on which some rule fires: its rule id.
pub open spec fn matched_segments(segs: Seq<Seq<char>>, rules: Seq<Rule>, k: int) -> Option<Seq<char>>
    decreases segs.len() - k,
{
    if k < 0 || k >= segs.len() {
        None
    } else if first_firing(segs[k], rules) is Some {
        Some(rules[first_firing(segs[k], rules).unwrap()].id@)
    } else {
        matched_segments(segs, rules, k + 1)
    }
}

/// Pipeline-aware variant of [`check`]: splits `command` on `&&`, `||` and `;`
/// and returns the decision for the first segment that some rule blocks.
pub fn check_pipeline(command: &str, rules: &[Rule]) -> (r: Option<(String, String)>)
    ensures
        pair_view(r) == check_segments(segments(command@), rules@, 0),
{
    let segs = sequential_segments(command);
    let mut i: usize = 0;
    while i < segs.len()
        invariant
            i <= segs@.len(),
            views(segs@) == segments(command@),
            check_segments(segments(command@), rules@, 0) == check_segments(segments(command@), rules@, i as int),
        decreases segs.len() - i,
    {
        let r = check(segs[i], rules);
        proof { assert(segments(command@)[i as int] == segs@[i as int]@); }
        if r.is_some() {
            return r;
        }
        i += 1;
    }
    None
}

/// Pipeline-aware variant of [`matched_rule_id`].
pub fn matched_rule_id_pipeline(command: &str, rules: &[Rule]) -> (r: Option<String>)
    ensures
        opt_view(r) == matched_segments(segments(command@), rules@, 0),
{
    let segs = sequential_segments(command);
    let mut i: usize = 0;
    while i < segs.len()
        invariant
            i <= segs@.len(),
            views(segs@) == segments(command@),
            matched_segments(segments(command@), rules@, 0) == matched_segments(segments(command@), rules@, i as int),
        decreases segs.len() - i,
    {
        let r = matched_rule_id(segs[i], rules);
        proof { assert(segments(command@)[i as int] == segs@[i as int]@); }
        if r.is_some() {
            return r;
        }
        i += 1;
    }
    None
}

// ---------------------------------------------------------------------------
// Laws
// ---------------------------------------------------------------------------

/// A rule whose exception matches the command never blocks it, whatever its pattern.
pub proof fn lemma_exception_overrides(cmd: Seq<char>, r: Rule)
    requires
        excepted(cmd, seq_views(r.exceptions@)),
    ensures
        check_spec(cmd, seq![r]) is None,
{
    assert(first_firing_from(cmd, seq![r], 1) is None);
}

/// A disabled rule never blocks any command.
pub proof fn lemma_disabled_rule_never_blocks(cmd: Seq<char>, r: Rule)
    requires
        !r.enabled,
    ensures
        check_spec(cmd, seq![r]) is None,
{
    assert(first_firing_from(cmd, seq![r], 1) is None);
}

/// Without rules every command is allowed.
pub proof fn lemma_no_rules_allows_all(cmd: Seq<char>)
    ensures
        check_spec(cmd, Seq::<Rule>::empty()) is None,
{
}

/// The rule that discovery attributes a command to is the rule the pre-hook blocks it with.
pub proof fn lemma_matched_id_is_blocking_id(cmd: Seq<char>, rules: Seq<Rule>)
    ensures
        check_spec(cmd, rules) is Some <==> first_firing(cmd, rules) is Some,
        first_firing(cmd, rules) matches Some(k) ==> check_spec(cmd, rules).unwrap().0
            == rules[k].id@,
{
}

proof fn lemma_first_firing_from_found(cmd: Seq<char>, rules: Seq<Rule>, k: int)
    requires
        0 <= k,
    ensures
        first_firing_from(cmd, rules, k) matches Some(j) ==> k <= j < rules.len() && rule_fires(
            cmd,
            rules[j],
        ) && forall|i: int| k <= i < j ==> !rule_fires(cmd, #[trigger] rules[i]),
        first_firing_from(cmd, rules, k) is None ==> forall|i: int|
            k <= i < rules.len() ==> !rule_fires(cmd, #[trigger] rules[i]),
    decreases rules.len() - k,
{
    if k < rules.len() {
        lemma_first_firing_from_found(cmd, rules, k + 1);
    }
}

/// The blocking rule is the earliest rule in the list that fires; rules before it do not fire.
pub proof fn lemma_first_match_wins(cmd: Seq<char>, rules: Seq<Rule>)
    ensures
        first_firing(cmd, rules) matches Some(k) ==> 0 <= k < rules.len() && rule_fires(
            cmd,
            rules[k],
        ) && forall|i: int| 0 <= i < k ==> !rule_fires(cmd, #[trigger] rules[i]),
        first_firing(cmd, rules) is None ==> forall|i: int|
            0 <= i < rules.len() ==> !rule_fires(cmd, #[trigger] rules[i]),
{
    lemma_first_firing_from_found(cmd, rules, 0);
}

proof fn lemma_check_segments_found(segs: Seq<Seq<char>>, rules: Seq<Rule>, k: int)
    requires
        0 <= k,
    ensures
        check_segments(segs, rules, k) is None <==> forall|i: int|
            k <= i < segs.len() ==> check_spec(#[trigger] segs[i], rules) is None,
    decreases segs.len() - k,
{
    if k < segs.len() {
        lemma_check_segments_found(segs, rules, k + 1);
    }
}

/// A pipeline is allowed exactly when each of its sequential segments is allowed.
pub proof fn lemma_pipeline_allowed_iff_segments_allowed(cmd: Seq<char>, rules: Seq<Rule>)
    ensures
        check_segments(segments(cmd), rules, 0) is None <==> forall|i: int|
            0 <= i < segments(cmd).len() ==> check_spec(#[trigger] segments(cmd)[i], rules) is None,
{
    lemma_check_segments_found(segments(cmd), rules, 0);
}

/// A target that names the command of a stage after a `|` qualifies the whole
/// pipeline: whatever stands before the pipe, a rule aimed at the later stage's
/// command fires when it is enabled, its pattern matches and no exception does.
pub proof fn lemma_later_stage_target_fires(a: Seq<char>, b: Seq<char>, r: Rule)
    requires
        targets_match_spec(b, seq_views(r.target_commands@)),
        r.enabled,
        pattern_finds(effective_pattern(r), a + seq!['|'] + b),
        !excepted(a + seq!['|'] + b, seq_views(r.exceptions@)),
    ensures
        targets_match_spec(a + seq!['|'] + b, seq_views(r.target_commands@)),
        rule_fires(a + seq!['|'] + b, r),
{
    let t = seq_views(r.target_commands@);
    let c = a + seq!['|'] + b;
    crate::pipeline::lemma_pipe_joins_commands(a, b);
    if t.len() > 0 {
        let (i, j) = choose|i: int, j: int|
            0 <= i < stage_commands(b).len() && 0 <= j < t.len() && t[j] == stage_commands(b)[i];
        let k = stage_commands(a).len() + i;
        assert(stage_commands(c)[k] == stage_commands(b)[i]);
    }
}

/// A copy of a list of strings, element for element.
pub fn copy_strings(v: &Vec<String>) -> (r: Vec<String>)
    ensures
        r@ == v@,
{
    let mut out: Vec<String> = Vec::new();
    let mut i: usize = 0;
    while i < v.len()
        invariant
            i <= v@.len(),
            out@ == v@.take(i as int),
        decreases v.len() - i,
    {
        out.push(v[i].clone());
        proof { assert(v@.take(i + 1) == v@.take(i as int).push(v@[i as int])); }
        i += 1;
    }
    proof { assert(v@.take(v@.len() as int) == v@); }
    out
}

pub fn copy_opt_string(o: &Option<String>) -> (r: Option<String>)
    ensures
        r == *o,
{
    match o {
        Some(s) => Some(s.clone()),
        None => None,
    }
}

/// Two rules with the same contents.
pub open spec fn same_rule(a: Rule, b: Rule) -> bool {
    &&& a.id == b.id
    &&& a.enabled == b.enabled
    &&& a.pattern == b.pattern
    &&& a.pattern_flags == b.pattern_flags
    &&& a.exceptions@ == b.exceptions@
    &&& a.target_commands@ == b.target_commands@
    &&& a.message == b.message
}

/// Two configurations with the same contents.
pub open spec fn same_config(a: RulesConfig, b: RulesConfig) -> bool {
    &&& a.rules@.len() == b.rules@.len()
    &&& forall|i: int| 0 <= i < a.rules@.len() ==> same_rule(#[trigger] a.rules@[i], b.rules@[i])
    &&& a.failure_learning == b.failure_learning
}

impl Rule {
    /// A copy of the rule, field for field.
    pub fn copy(&self) -> (r: Self)
        ensures
            same_rule(r, *self),
    {
        Rule {
            id: self.id.clone(),
            enabled: self.enabled,
            pattern: self.pattern.clone(),
            pattern_flags: self.pattern_flags.clone(),
            exceptions: copy_strings(&self.exceptions),
            target_commands: copy_strings(&self.target_commands),
            message: copy_opt_string(&self.message),
        }
    }
}

impl FailureLearning {
    /// A copy of the settings, field for field.
    pub fn copy(&self) -> (r: Self)
        ensures
            r == *self,
    {
        FailureLearning {
            enabled: self.enabled,
            block_threshold: self.block_threshold,
            window_seconds: self.window_seconds,
            state_file: copy_opt_string(&self.state_file),
            max_tracked_commands: self.max_tracked_commands,
            cleanup_after_seconds: self.cleanup_after_seconds,
            message_template: copy_opt_string(&self.message_template),
        }
    }
}

impl RulesConfig {
    /// A copy of the configuration, rule for rule.
    pub fn copy(&self) -> (r: Self)
        ensures
            same_config(r, *self),
    {
        let mut rules: Vec<Rule> = Vec::new();
        let mut i: usize = 0;
        while i < self.rules.len()
            invariant
                i <= self.rules@.len(),
                rules@.len() == i,
                forall|j: int| 0 <= j < i ==> same_rule(#[trigger] rules@[j], self.rules@[j]),
            decreases self.rules.len() - i,
        {
            rules.push(self.rules[i].copy());
            i += 1;
        }
        RulesConfig { rules, failure_learning: self.failure_learning.copy() }
    }
}


/// The default failure-learning settings are usable: enabled, a positive
/// threshold, window and capacity, and stale entries kept at least a window.
pub proof fn lemma_default_failure_learning_valid(fl: FailureLearning)
    requires
        is_default_failure_learning(fl),
    ensures
        fl.enabled,
        fl.block_threshold >= 1,
        fl.window_seconds > 0,
        fl.max_tracked_commands > 0,
        fl.cleanup_after_seconds >= fl.window_seconds,
{
}

} // verus!
