//! The concrete hooks: rule blocking, rewriting, output filtering, and
//! failure recording. The command of a tool call is taken from its input by
//! the caller (`None` for tools without one).
use vstd::prelude::*;
use crate::chain::{PostHookOutcome, PreHookOutcome, ToolOutput};
use crate::filters::{result_is, run_filter, FilterPayload, FilterResult, FiltersConfig, FiltersLoader};
use crate::loader::RulesLoader;
use crate::pipeline::{segments, sequential_segments, views};
use crate::rewrite::{apply_expanded, rewrite_result, RewriteConfig, RewriteLoader};
use crate::rules::{
    base_message, check_pipeline, check_segments, first_firing, matched_rule_id, pair_view, Rule, RulesConfig,
};
use crate::state::{check_learned, learned_message, State};
use crate::store::StateStore;
use crate::text::{owned, push_str};

verus! {

/// The message a command is blocked with: over its segments and then the
/// whole command, the first that a rule blocks gives the message of the
/// pipeline check of that segment, else of the whole command, else of the
/// rule itself; `None` when no rule blocks any of them.
pub open spec fn rule_block_message(command: Seq<char>, rules: Seq<Rule>) -> Option<Seq<char>> {
    let segs = segments(command).push(command);
    match first_blocked(segs, rules, 0) {
        None => None,
        Some(i) => match check_segments(segments(segs[i]), rules, 0) {
            Some(p) => Some(p.1),
            None => match check_segments(segments(command), rules, 0) {
                Some(p) => Some(p.1),
                None => Some(base_message(rules[first_firing(segs[i], rules)->0])),
            },
        },
    }
}

/// The first of `segs` at or after `k` that some rule blocks.
pub open spec fn first_blocked(segs: Seq<Seq<char>>, rules: Seq<Rule>, k: int) -> Option<int>
    decreases segs.len() - k,
{
    if k < 0 || k >= segs.len() {
        None
    } else if first_firing(segs[k], rules) is Some {
        Some(k)
    } else {
        first_blocked(segs, rules, k + 1)
    }
}

/// What the rule-block hook answers for a command under `config` and `state`:
/// a rule's deny, else the failure-learning deny, else allow.
pub open spec fn rule_block_outcome_is(o: PreHookOutcome, command: Seq<char>, config: RulesConfig, state: State) -> bool {
    match rule_block_message(command, config.rules@) {
        Some(m) => o matches PreHookOutcome::Deny(x) && x@ == m,
        None => match learned_message(command, state@, config.failure_learning) {
            Some(m) => o matches PreHookOutcome::Deny(x) && x@ == m,
            None => o is Allow,
        },
    }
}

/// The rule-block decision for a command.
pub fn rule_block_outcome(command: &str, config: &RulesConfig, state: &State) -> (o: PreHookOutcome)
    ensures
        rule_block_outcome_is(o, command@, *config, *state),
{
    let mut segs = sequential_segments(command);
    segs.push(command);
    let ghost sv = views(segs@);
    proof { assert(sv =~= segments(command@).push(command@)); }
    let mut i: usize = 0;
    while i < segs.len()
        invariant
            sv == views(segs@),
            sv == segments(command@).push(command@),
            i <= segs@.len(),
            first_blocked(sv, config.rules@, 0) == first_blocked(sv, config.rules@, i as int),
        decreases segs.len() - i,
    {
        let seg = segs[i];
        assert(sv[i as int] == seg@);
        if matched_rule_id(seg, config.rules.as_slice()).is_some() {
            let msg = match check_pipeline(seg, config.rules.as_slice()) {
                Some((_, m)) => m,
                None => match check_pipeline(command, config.rules.as_slice()) {
                    Some((_, m)) => m,
                    None => {
                        let k = first_rule_index(seg, &config.rules);
                        let r = &config.rules[k];
                        match &r.message {
                            Some(m) => m.clone(),
                            None => {
                                proof {
                                    reveal_strlit("Blocked by rule '");
                                    reveal_strlit("'.");
                                }
                                let mut s = owned("Blocked by rule '");
                                push_str(&mut s, r.id.as_str());
                                push_str(&mut s, "'.");
                                s
                            },
                        }
                    },
                },
            };
            return PreHookOutcome::Deny(msg);
        }
        i += 1;
    }
    match check_learned(command, state, &config.failure_learning) {
        Some(m) => PreHookOutcome::Deny(m),
        None => PreHookOutcome::Allow,
    }
}

fn first_rule_index(seg: &str, rules: &Vec<Rule>) -> (k: usize)
    requires
        first_firing(seg@, rules@) is Some,
    ensures
        first_firing(seg@, rules@) == Some(k as int),
        k < rules@.len(),
{
    let mut k: usize = 0;
    while k < rules.len()
        invariant
            k <= rules@.len(),
            first_firing(seg@, rules@) == crate::rules::first_firing_from(seg@, rules@, k as int),
        decreases rules.len() - k,
    {
        if crate::rules::fires(seg, &rules[k]) {
            return k;
        }
        k += 1;
    }
    k
}

/// Pre-hook that blocks commands matching the rules, or failing too often.
pub struct RuleBlockHook<R, S> {
    pub rules_loader: R,
    pub state_store: S,
    /// Titles of the running tasks. No rule carries a task override, so they
    /// do not change the outcome.
    pub running_titles: Vec<String>,
}

impl<R: RulesLoader, S: StateStore> RuleBlockHook<R, S> {
    pub fn new(rules_loader: R, state_store: S) -> (h: Self)
        ensures
            h.rules_loader == rules_loader,
            h.state_store == state_store,
            h.running_titles@.len() == 0,
    {
        RuleBlockHook { rules_loader, state_store, running_titles: Vec::new() }
    }

    /// Attach the titles of the running tasks.
    pub fn with_running_titles(self, titles: Vec<String>) -> (h: Self)
        ensures
            h.running_titles == titles,
            h.rules_loader == self.rules_loader,
            h.state_store == self.state_store,
    {
        let mut h = self;
        h.running_titles = titles;
        h
    }

    /// The outcome for a tool call with this command: allow without one,
    /// else the rule-block decision under the loaded rules and state.
    /// Suppressing a rule while a running task overrides it is not supported:
    /// a rule has no field naming such a task, so `running_titles` is kept
    /// for callers but never changes the outcome.
    pub fn run(&self, command: Option<&str>) -> (o: PreHookOutcome)
        ensures
            match command {
                None => o is Allow,
                Some(c) => exists|config: RulesConfig, state: State| rule_block_outcome_is(o, c@, config, state),
            },
    {
        match command {
            None => PreHookOutcome::Allow,
            Some(c) => {
                let config = self.rules_loader.load();
                let state = self.state_store.load();
                rule_block_outcome(c, &config, &state)
            },
        }
    }
}

/// The reason given for a rewrite.
pub open spec fn rewrite_reason(applied: Seq<Seq<char>>) -> Seq<char> {
    if applied.len() == 0 {
        "Rewritten by expansion"@
    } else {
        "Rewritten by rules: "@ + joined(applied)
    }
}

/// The names joined with `, `.
pub open spec fn joined(v: Seq<Seq<char>>) -> Seq<char>
    decreases v.len(),
{
    if v.len() == 0 {
        seq![]
    } else if v.len() == 1 {
        v[0]
    } else {
        joined(v.drop_last()) + ", "@ + v.last()
    }
}

fn join_comma(v: &Vec<String>) -> (s: String)
    ensures
        s@ == joined(crate::rules::seq_views(v@)),
{
    proof { reveal_strlit(", "); }
    let mut s = String::new();
    let mut k: usize = 0;
    while k < v.len()
        invariant
            k <= v@.len(),
            s@ == joined(crate::rules::seq_views(v@).take(k as int)),
        decreases v.len() - k,
    {
        let ghost t = crate::rules::seq_views(v@).take(k + 1);
        proof {
            assert(t.drop_last() == crate::rules::seq_views(v@).take(k as int));
            assert(t.last() == v@[k as int]@);
        }
        if k > 0 {
            push_str(&mut s, ", ");
        } else {
            proof { assert(t == seq![v@[0]@]); }
        }
        push_str(&mut s, v[k].as_str());
        k += 1;
    }
    proof { assert(crate::rules::seq_views(v@).take(v@.len() as int) == crate::rules::seq_views(v@)); }
    s
}

/// Pre-hook that rewrites commands through the rewrite rules.
pub struct RewriteHook<R> {
    pub rewrite_loader: R,
}

/// What the rewrite hook answers under `config`: a rewrite when the pass
/// (without variable expansion) changed the command, else allow.
pub open spec fn rewrite_outcome_is(o: PreHookOutcome, command: Seq<char>, config: RewriteConfig) -> bool {
    match rewrite_result(command, command, config.rewrites@) {
        Some((c, applied)) => o matches PreHookOutcome::Rewrite { command: x, reason } && x@ == c
            && reason@ == rewrite_reason(applied),
        None => o is Allow,
    }
}

impl<R: RewriteLoader> RewriteHook<R> {
    pub fn new(rewrite_loader: R) -> (h: Self)
        ensures
            h.rewrite_loader == rewrite_loader,
    {
        RewriteHook { rewrite_loader }
    }

    /// The rewrite decision for a command under a configuration.
    pub fn decide(command: &str, config: &RewriteConfig) -> (o: PreHookOutcome)
        ensures
            rewrite_outcome_is(o, command@, *config),
    {
        proof {
            reveal_strlit("Rewritten by expansion");
            reveal_strlit("Rewritten by rules: ");
        }
        match apply_expanded(command, owned(command), config) {
            Some(outcome) => {
                let reason = if outcome.applied_rules.len() == 0 {
                    owned("Rewritten by expansion")
                } else {
                    let mut r = owned("Rewritten by rules: ");
                    let j = join_comma(&outcome.applied_rules);
                    push_str(&mut r, j.as_str());
                    r
                };
                PreHookOutcome::Rewrite { command: outcome.command, reason }
            },
            None => PreHookOutcome::Allow,
        }
    }

    /// The outcome for a tool call with this command.
    pub fn run(&self, command: Option<&str>) -> (o: PreHookOutcome)
        ensures
            match command {
                None => o is Allow,
                Some(c) => exists|config: RewriteConfig| rewrite_outcome_is(o, c@, config),
            },
    {
        match command {
            None => PreHookOutcome::Allow,
            Some(c) => {
                let config = self.rewrite_loader.load();
                Self::decide(c, &config)
            },
        }
    }
}

/// Post-hook that compresses or suppresses output through the filter rules.
pub struct FilterHook<F> {
    pub filters_loader: F,
}

/// A filter result as a post-hook outcome: pass-through allows, a
/// replacement filters to it, suppression filters to nothing.
pub open spec fn post_outcome_of(o: PostHookOutcome, r: FilterResult) -> bool {
    match r {
        FilterResult::Passthrough => o is Allow,
        FilterResult::Replace(t) => o matches PostHookOutcome::Filter(x) && x@ == t@,
        FilterResult::Suppress => o matches PostHookOutcome::Filter(x) && x@.len() == 0,
    }
}

impl<F: FiltersLoader> FilterHook<F> {
    pub fn new(filters_loader: F) -> (h: Self)
        ensures
            h.filters_loader == filters_loader,
    {
        FilterHook { filters_loader }
    }

    /// The filter decision for a payload under a configuration.
    pub fn decide(payload: &FilterPayload, config: &FiltersConfig) -> (o: PostHookOutcome)
        ensures
            exists|r: FilterResult| result_is(r, *payload, config.filters@) && post_outcome_of(o, r),
    {
        let r = run_filter(payload, config);
        let ghost rr = r;
        let o = match r {
            FilterResult::Passthrough => PostHookOutcome::Allow,
            FilterResult::Replace(text) => PostHookOutcome::Filter(text),
            FilterResult::Suppress => PostHookOutcome::Filter(String::new()),
        };
        proof { assert(result_is(rr, *payload, config.filters@) && post_outcome_of(o, rr)); }
        o
    }

    /// The outcome for a tool call with this command and output.
    pub fn run(&self, command: Option<&str>, output: &ToolOutput) -> (o: PostHookOutcome)
        ensures
            command is None ==> o is Allow,
            command matches Some(c) ==> exists|config: FiltersConfig, p: FilterPayload, r: FilterResult|
                p.command@ == c@ && p.output@ == output.text@ && p.exit_code == output.exit_code
                && result_is(r, p, config.filters@) && post_outcome_of(o, r),
    {
        match command {
            None => PostHookOutcome::Allow,
            Some(c) => {
                let config = self.filters_loader.load();
                let payload = FilterPayload { command: owned(c), output: output.text.clone(), exit_code: output.exit_code };
                Self::decide(&payload, &config)
            },
        }
    }
}

/// Observer that records failing commands into the failure-learning state.
pub struct FailureObserver<R, S> {
    pub rules_loader: R,
    pub state_store: S,
}

impl<R: RulesLoader, S: StateStore> FailureObserver<R, S> {
    pub fn new(rules_loader: R, state_store: S) -> (o: Self)
        ensures
            o.rules_loader == rules_loader,
            o.state_store == state_store,
    {
        FailureObserver { rules_loader, state_store }
    }

    /// Nothing happens before a tool runs.
    pub fn on_pre(&self, command: Option<&str>, outcome: &PreHookOutcome) {
    }

    /// After a tool ran with a non-zero exit, record its command as a failure
    /// (now) and save the state; otherwise change nothing.
    pub fn on_post(&mut self, command: Option<&str>, output: &ToolOutput) -> (recorded: bool)
        ensures
            recorded == (output.exit_code != 0 && command is Some),
    {
        if output.exit_code == 0 {
            return false;
        }
        match command {
            None => false,
            Some(c) => {
                let config = self.rules_loader.load();
                let state = self.state_store.load();
                let next = crate::state::record_failure(state, c, &config.failure_learning);
                self.state_store.save(&next);
                true
            },
        }
    }
}

} // verus!
