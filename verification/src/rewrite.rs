//! Regex rewrite rules folded over a command.
use vstd::prelude::*;
use crate::expand::VarExpander;
use crate::matcher::{compile, is_match, pattern_finds, regex_replace_first, replace_first};
use crate::rules::seq_views;
use crate::text::str_eq;

verus! {

/// A rewrite rule: when `pattern` matches the command, its first match is
/// replaced by `replace` (which may use `$1`, `$2`, ... capture groups).
#[derive(Debug, Clone)]
pub struct RewriteRule {
    pub pattern: String,
    pub replace: String,
}

/// The `[rewrites]` section of the filters file.
#[derive(Debug, Clone)]
pub struct RewriteConfig {
    pub rewrites: Vec<RewriteRule>,
}

impl Default for RewriteConfig {
    fn default() -> (c: Self)
        ensures
            c.rewrites@.len() == 0,
    {
        RewriteConfig { rewrites: Vec::new() }
    }
}

/// Interface: where the rewrite rules come from.
pub trait RewriteLoader {
    fn load(&self) -> RewriteConfig;
}

/// A command after the rewrite pass.
#[derive(Debug, Clone, PartialEq, Eq)]
pub struct RewriteOutcome {
    /// The command after every matching rule was applied, in order.
    pub command: String,
    /// The pattern of each rule that fired, in order.
    pub applied_rules: Vec<String>,
}

/// The command and fired patterns after one pass over the first `n` rules:
/// each rule whose pattern compiles and matches the current command replaces
/// its first match, once.
pub open spec fn fold_rules(cmd: Seq<char>, rules: Seq<RewriteRule>, n: nat) -> (Seq<char>, Seq<Seq<char>>)
    decreases n,
{
    if n == 0 || n > rules.len() {
        (cmd, seq![])
    } else {
        let (c, a) = fold_rules(cmd, rules, (n - 1) as nat);
        let r = rules[n - 1];
        if pattern_finds(r.pattern@, c) {
            (regex_replace_first(r.pattern@, c, r.replace@), a.push(r.pattern@))
        } else {
            (c, a)
        }
    }
}

/// The outcome for `command` whose expansion is `expanded`: the command the
/// fold over the expansion ends with, and the patterns that fired, when that
/// command differs from `command`; nothing when the command is unchanged.
pub open spec fn rewrite_result(command: Seq<char>, expanded: Seq<char>, rules: Seq<RewriteRule>) -> Option<(Seq<char>, Seq<Seq<char>>)> {
    let (c, a) = fold_rules(expanded, rules, rules.len());
    if c == command {
        None
    } else {
        Some((c, a))
    }
}

pub open spec fn outcome_view(o: Option<RewriteOutcome>) -> Option<(Seq<char>, Seq<Seq<char>>)> {
    match o {
        Some(x) => Some((x.command@, seq_views(x.applied_rules@))),
        None => None,
    }
}

/// The rewrite pass over an already expanded command.
pub fn apply_expanded(command: &str, expanded: String, config: &RewriteConfig) -> (r: Option<RewriteOutcome>)
    ensures
        outcome_view(r) == rewrite_result(command@, expanded@, config.rewrites@),
{
    let rules = &config.rewrites;
    let mut current = expanded.clone();
    let mut applied: Vec<String> = Vec::new();
    let mut i: usize = 0;
    while i < rules.len()
        invariant
            i <= rules@.len(),
            rules@ == config.rewrites@,
            (current@, seq_views(applied@)) == fold_rules(expanded@, rules@, i as nat),
        decreases rules.len() - i,
    {
        let rule = &rules[i];
        match compile(rule.pattern.as_str()) {
            Some(re) => {
                if is_match(&re, current.as_str()) {
                    current = replace_first(&re, current.as_str(), rule.replace.as_str());
                    let ghost before = applied@;
                    applied.push(rule.pattern.clone());
                    proof { assert(seq_views(applied@) =~= seq_views(before).push(rule.pattern@)); }
                }
            },
            None => {},
        }
        i += 1;
    }
    if str_eq(current.as_str(), command) {
        None
    } else {
        Some(RewriteOutcome { command: current, applied_rules: applied })
    }
}

/// Rewrite `command` by folding it through every matching rule, in order,
/// after `expander` resolved its variable references. Each rule fires at most
/// once; `None` when neither a rule nor the expansion changed the command.
/// What the expander returns is its own; the outcome is the pass over it.
pub fn apply<E: VarExpander>(command: &str, config: &RewriteConfig, expander: &E) -> (r: Option<RewriteOutcome>)
    ensures
        exists|expanded: Seq<char>| outcome_view(r) == rewrite_result(command@, expanded, config.rewrites@),
{
    let expanded = expander.expand(command);
    let r = apply_expanded(command, expanded, config);
    r
}


/// One pass: each rule fires at most once, so no more patterns are reported
/// than there are rules, and each reported pattern is some rule's pattern.
pub proof fn lemma_each_rule_fires_at_most_once(cmd: Seq<char>, rules: Seq<RewriteRule>, n: nat)
    requires
        n <= rules.len(),
    ensures
        fold_rules(cmd, rules, n).1.len() <= n,
        forall|k: int| 0 <= k < fold_rules(cmd, rules, n).1.len() ==> exists|j: int| 0 <= j < n
            && #[trigger] fold_rules(cmd, rules, n).1[k] == rules[j].pattern@,
    decreases n,
{
    if n > 0 {
        lemma_each_rule_fires_at_most_once(cmd, rules, (n - 1) as nat);
        let prev = fold_rules(cmd, rules, (n - 1) as nat).1;
        let cur = fold_rules(cmd, rules, n).1;
        assert forall|k: int| 0 <= k < cur.len() implies exists|j: int| 0 <= j < n && #[trigger] cur[k] == rules[j].pattern@ by {
            if k < prev.len() {
                assert(cur[k] == prev[k]);
                let j = choose|j: int| 0 <= j < n - 1 && prev[k] == rules[j].pattern@;
                assert(0 <= j < n && cur[k] == rules[j].pattern@);
            } else {
                assert(cur[k] == rules[n - 1].pattern@);
            }
        }
    }
}

proof fn lemma_fold_prefix(cmd: Seq<char>, rules: Seq<RewriteRule>, r: RewriteRule, n: nat)
    requires
        n <= rules.len(),
    ensures
        fold_rules(cmd, rules.push(r), n) == fold_rules(cmd, rules, n),
    decreases n,
{
    if n > 0 {
        lemma_fold_prefix(cmd, rules, r, (n - 1) as nat);
        assert(rules.push(r)[n - 1] == rules[n - 1]);
    }
}

/// One rule alone: when its pattern compiles and matches, the command becomes
/// `Regex::replace` of it (the first match replaced, once: `regex_replace_first`,
/// not `regex_replace_every`) and the pattern is reported; otherwise the command
/// stays as it is and nothing is reported.
pub proof fn lemma_single_rule_replaces_first(cmd: Seq<char>, r: RewriteRule)
    ensures
        fold_rules(cmd, seq![r], 1) == if pattern_finds(r.pattern@, cmd) {
            (regex_replace_first(r.pattern@, cmd, r.replace@), seq![r.pattern@])
        } else {
            (cmd, Seq::<Seq<char>>::empty())
        },
{
    let rules = seq![r];
    assert(fold_rules(cmd, rules, 0) == (cmd, Seq::<Seq<char>>::empty()));
    assert(rules[0] == r);
    assert(Seq::<Seq<char>>::empty().push(r.pattern@) == seq![r.pattern@]);
}

/// Rules apply in order, each to the command the rules before it left: the pass
/// over `rules` followed by `r` is the pass over `rules`, then `r` alone on its
/// result, with the fired patterns of both in order.
pub proof fn lemma_rules_apply_in_sequence(cmd: Seq<char>, rules: Seq<RewriteRule>, r: RewriteRule)
    ensures
        ({
            let (c, a) = fold_rules(cmd, rules, rules.len());
            let (c2, a2) = fold_rules(c, seq![r], 1);
            fold_rules(cmd, rules.push(r), rules.len() + 1) == (c2, a + a2)
        }),
{
    let n = rules.len();
    lemma_fold_prefix(cmd, rules, r, n);
    let (c, a) = fold_rules(cmd, rules, n);
    lemma_single_rule_replaces_first(c, r);
    assert(rules.push(r)[n as int] == r);
    assert(a + Seq::<Seq<char>>::empty() == a);
    assert(a + seq![r.pattern@] == a.push(r.pattern@));
}

} // verus!
