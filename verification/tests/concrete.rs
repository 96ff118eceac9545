use crs_core::chain::{PostHookOutcome, PreHookOutcome, ToolOutput};
use crs_core::concrete::{rule_block_outcome, FailureObserver, FilterHook, RewriteHook, RuleBlockHook};
use crs_core::filters::{FilterMode, FilterRule, FiltersConfig, FiltersLoader};
use crs_core::loader::InMemoryRulesLoader;
use crs_core::rewrite::{RewriteConfig, RewriteLoader, RewriteRule};
use crs_core::rules::{FailureLearning, Rule, RulesConfig};
use crs_core::state::{command_key, FailureEntry, State};
use crs_core::store::{InMemoryStateStore, StateStore};

fn rules_config() -> RulesConfig {
    RulesConfig {
        rules: vec![Rule {
            id: "no-grep".into(),
            enabled: true,
            pattern: r"\bgrep\b".into(),
            pattern_flags: String::new(),
            exceptions: vec![],
            target_commands: vec![],
            message: Some("Use the Grep tool.".into()),
        }],
        failure_learning: FailureLearning::default(),
    }
}

struct Rewrites(Vec<(&'static str, &'static str)>);
impl RewriteLoader for Rewrites {
    fn load(&self) -> RewriteConfig {
        RewriteConfig { rewrites: self.0.iter().map(|(p, r)| RewriteRule { pattern: p.to_string(), replace: r.to_string() }).collect() }
    }
}

struct Filters(FilterMode);
impl FiltersLoader for Filters {
    fn load(&self) -> FiltersConfig {
        FiltersConfig {
            filters: vec![FilterRule { pattern: "cargo nextest".into(), mode: self.0, max_lines: 3, match_pattern: None }],
            ..Default::default()
        }
    }
}

#[test]
fn rule_block_hook_allows_clean_command() {
    let hook = RuleBlockHook::new(InMemoryRulesLoader(rules_config()), InMemoryStateStore::new());
    assert_eq!(hook.run(Some("cargo build")), PreHookOutcome::Allow);
}

#[test]
fn rule_block_hook_denies_matching_command() {
    let hook = RuleBlockHook::new(InMemoryRulesLoader(rules_config()), InMemoryStateStore::new());
    assert!(matches!(hook.run(Some("cargo build && grep foo .")), PreHookOutcome::Deny(_)));
}

#[test]
fn rule_block_hook_message_from_rule() {
    let hook = RuleBlockHook::new(InMemoryRulesLoader(rules_config()), InMemoryStateStore::new())
        .with_running_titles(vec!["[t1] task".into()]);
    assert_eq!(hook.run(Some("grep foo .")), PreHookOutcome::Deny("Use the Grep tool.".into()));
}

#[test]
fn rule_block_hook_allows_non_bash_context() {
    let hook = RuleBlockHook::new(InMemoryRulesLoader(rules_config()), InMemoryStateStore::new());
    assert_eq!(hook.run(None), PreHookOutcome::Allow);
}

#[test]
fn rule_block_hook_denies_via_failure_learning() {
    let now = crs_core::clock::now_secs();
    let mut state = State::new();
    state.insert(
        command_key("make test"),
        FailureEntry { command_preview: "make test".into(), timestamps: vec![now, now, now], last_seen: now },
    );
    let out = rule_block_outcome("make test", &rules_config(), &state);
    assert!(matches!(out, PreHookOutcome::Deny(_)));
}

#[test]
fn rewrite_hook_returns_allow_on_no_match() {
    let hook = RewriteHook::new(Rewrites(vec![("^cargo test$", "cargo nextest run")]));
    assert_eq!(hook.run(Some("ls")), PreHookOutcome::Allow);
}

#[test]
fn rewrite_hook_returns_rewrite_on_match() {
    let hook = RewriteHook::new(Rewrites(vec![("^cargo test$", "cargo nextest run"), ("nextest", "nextest")]));
    assert_eq!(
        hook.run(Some("cargo test")),
        PreHookOutcome::Rewrite {
            command: "cargo nextest run".into(),
            reason: "Rewritten by rules: ^cargo test$, nextest".into()
        }
    );
}

#[test]
fn rewrite_hook_allows_non_bash_context() {
    let hook = RewriteHook::new(Rewrites(vec![("x", "y")]));
    assert_eq!(hook.run(None), PreHookOutcome::Allow);
}

#[test]
fn filter_hook_allows_when_no_rule_matches() {
    let hook = FilterHook::new(Filters(FilterMode::FailuresOnly));
    let out = ToolOutput { text: "ok".into(), exit_code: 0 };
    assert_eq!(hook.run(Some("ls"), &out), PostHookOutcome::Allow);
}

#[test]
fn filter_hook_suppresses_on_success_with_failures_only() {
    let hook = FilterHook::new(Filters(FilterMode::FailuresOnly));
    let out = ToolOutput { text: "all passed".into(), exit_code: 0 };
    assert_eq!(hook.run(Some("cargo nextest run"), &out), PostHookOutcome::Filter(String::new()));
}

#[test]
fn filter_hook_allows_on_failure_with_failures_only() {
    let hook = FilterHook::new(Filters(FilterMode::FailuresOnly));
    let out = ToolOutput { text: "1 failed".into(), exit_code: 1 };
    assert_eq!(hook.run(Some("cargo nextest run"), &out), PostHookOutcome::Allow);
}

#[test]
fn failure_observer_records_non_zero_exit() {
    let mut obs = FailureObserver::new(InMemoryRulesLoader(rules_config()), InMemoryStateStore::new());
    let out = ToolOutput { text: String::new(), exit_code: 2 };
    assert!(obs.on_post(Some("make test"), &out));
    let st = obs.state_store.load();
    assert_eq!(st.failures.len(), 1);
    assert_eq!(st.failures[0].1.command_preview, "make test");
}

#[test]
fn failure_observer_ignores_zero_exit() {
    let mut obs = FailureObserver::new(InMemoryRulesLoader(rules_config()), InMemoryStateStore::new());
    let out = ToolOutput { text: String::new(), exit_code: 0 };
    assert!(!obs.on_post(Some("make test"), &out));
    assert!(obs.state_store.load().failures.is_empty());
}

#[test]
fn failure_observer_ignores_non_bash_context() {
    let mut obs = FailureObserver::new(InMemoryRulesLoader(rules_config()), InMemoryStateStore::new());
    let out = ToolOutput { text: String::new(), exit_code: 1 };
    assert!(!obs.on_post(None, &out));
}

#[test]
fn rewrite_hook_reason_mentions_rules() {
    let hook = RewriteHook::new(Rewrites(vec![("^git status$", "git status --short")]));
    match hook.run(Some("git status")) {
        PreHookOutcome::Rewrite { reason, .. } => assert!(reason.contains("^git status$"), "reason: {reason}"),
        other => panic!("expected Rewrite, got {other:?}"),
    }
}

#[test]
fn filter_hook_allows_non_bash_context() {
    let hook = FilterHook::new(Filters(FilterMode::FailuresOnly));
    let out = ToolOutput { text: "some output".into(), exit_code: 0 };
    assert_eq!(hook.run(None, &out), PostHookOutcome::Allow);
}

#[test]
fn failure_observer_on_pre_is_noop() {
    let obs = FailureObserver::new(InMemoryRulesLoader(rules_config()), InMemoryStateStore::new());
    obs.on_pre(Some("grep foo ."), &PreHookOutcome::Allow);
    assert!(obs.state_store.load().failures.is_empty());
}

#[test]
fn chain_with_rule_block_hook_denies() {
    let hook = RuleBlockHook::new(InMemoryRulesLoader(rules_config()), InMemoryStateStore::new());
    let outcome = crs_core::chain::resolve_pre(vec![hook.run(Some("grep foo ."))]);
    assert!(matches!(outcome, PreHookOutcome::Deny(_)));
}

#[test]
fn chain_with_filter_hook_suppresses() {
    let hook = FilterHook::new(Filters(FilterMode::FailuresOnly));
    let out = ToolOutput { text: "test output".into(), exit_code: 0 };
    let outcome = crs_core::chain::resolve_post(vec![hook.run(Some("cargo nextest run"), &out)]);
    assert_eq!(outcome, PostHookOutcome::Filter(String::new()));
}

#[test]
fn chain_with_observer_records_failure() {
    let mut obs = FailureObserver::new(InMemoryRulesLoader(rules_config()), InMemoryStateStore::new());
    let out = ToolOutput { text: "FAILED".into(), exit_code: 1 };
    let outcome = crs_core::chain::resolve_post(vec![]);
    assert!(obs.on_post(Some("cargo test"), &out));
    assert_eq!(outcome, PostHookOutcome::Allow);
    assert_eq!(obs.state_store.load().failures.len(), 1);
}
