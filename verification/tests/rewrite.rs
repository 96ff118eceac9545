use crs_core::expand::{EnvExpander, Environment, NoopExpander};
use crs_core::rewrite::{apply, RewriteConfig, RewriteRule};

fn cfg(rules: &[(&str, &str)]) -> RewriteConfig {
    RewriteConfig {
        rewrites: rules
            .iter()
            .map(|(p, r)| RewriteRule {
                pattern: p.to_string(),
                replace: r.to_string(),
            })
            .collect(),
    }
}

#[test]
fn rewrite_returns_none_on_no_match() {
    let c = cfg(&[("cargo nextest", "cargo nextest run")]);
    assert!(apply("doob todo list", &c, &NoopExpander).is_none());
}

#[test]
fn rewrite_rewrites_matching_command() {
    let c = cfg(&[("^git status$", "git status --short")]);
    assert_eq!(
        apply("git status", &c, &NoopExpander).unwrap().command,
        "git status --short"
    );
}

#[test]
fn applies_all_matching_rules_in_sequence() {
    let c = cfg(&[
        ("^cargo nextest.*", "cargo nextest run --no-fail-fast"),
        ("^cargo.*", "cargo --color always run --no-fail-fast"),
    ]);
    let outcome = apply("cargo nextest run", &c, &NoopExpander).unwrap();
    assert_eq!(outcome.command, "cargo --color always run --no-fail-fast");
    assert_eq!(
        outcome.applied_rules,
        vec!["^cargo nextest.*".to_string(), "^cargo.*".to_string()]
    );
}

#[test]
fn rewrite_supports_capture_groups() {
    let c = cfg(&[("^(cargo test)(.*)", "cargo nextest run$2")]);
    assert_eq!(
        apply("cargo test --release", &c, &NoopExpander)
            .unwrap()
            .command,
        "cargo nextest run --release"
    );
}

#[test]
fn rewrite_passthrough_on_empty_rules() {
    let c = RewriteConfig::default();
    assert!(apply("anything", &c, &NoopExpander).is_none());
}

#[test]
fn each_rule_fires_at_most_once() {
    // Rule's own replacement text still matches its own pattern — must NOT
    // re-fire (single linear pass, not loop-to-convergence).
    let c = cfg(&[("cargo", "cargo cargo")]);
    let outcome = apply("cargo build", &c, &NoopExpander).unwrap();
    assert_eq!(outcome.command, "cargo cargo build");
    assert_eq!(outcome.applied_rules, vec!["cargo".to_string()]);
}

#[test]
fn rewrite_invalid_regex_skipped() {
    let c = cfg(&[
        ("[(invalid", "replace"),
        ("^cargo build$", "cargo --color always build"),
    ]);
    assert_eq!(
        apply("cargo build", &c, &NoopExpander).unwrap().command,
        "cargo --color always build"
    );
}

#[test]
fn expansion_alone_is_an_outcome() {
    let c = RewriteConfig::default();
    let e = EnvExpander { env: Environment { vars: vec![("HOME".to_string(), "/home/joe".to_string())] } };
    let outcome = apply("cat ~/notes", &c, &e).unwrap();
    assert_eq!(outcome.command, "cat /home/joe/notes");
    assert!(outcome.applied_rules.is_empty());
}

#[test]
fn rule_sees_the_expanded_command() {
    let c = cfg(&[("^cat /home/joe/(.*)$", "bat $1")]);
    let e = EnvExpander { env: Environment { vars: vec![("HOME".to_string(), "/home/joe".to_string())] } };
    let outcome = apply("cat ~/notes", &c, &e).unwrap();
    assert_eq!(outcome.command, "bat notes");
}

#[test]
fn rewrite_that_changes_nothing_is_none() {
    let c = cfg(&[("git", "git")]);
    assert!(apply("git status", &c, &NoopExpander).is_none());
}

#[test]
fn rules_that_undo_each_other_are_none() {
    let c = cfg(&[("^ls$", "ls -la"), ("^ls -la$", "ls")]);
    assert!(apply("ls", &c, &NoopExpander).is_none());
}
