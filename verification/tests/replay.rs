use crs_core::replay::{format_text, replay, ReplayVerdict};
use crs_core::rules::Rule;

fn rule(id: &str, pattern: &str) -> Rule {
    Rule {
        id: id.to_string(),
        enabled: true,
        pattern: pattern.to_string(),
        pattern_flags: String::new(),
        exceptions: vec![],
        target_commands: vec![],
        message: Some(format!("Use tool instead of {id}.")),
    }
}

#[test]
fn replay_empty_commands_returns_empty_report() {
    let report = replay(&[], &[]);
    assert_eq!(report.entries.len(), 0);
    assert_eq!(report.blocked, 0);
    assert_eq!(report.passed, 0);
}

#[test]
fn replay_all_pass_when_no_rules() {
    let cmds = vec!["grep foo .".to_string(), "ls -la".to_string()];
    let report = replay(&cmds, &[]);
    assert_eq!(report.passed, 2);
    assert_eq!(report.blocked, 0);
}

#[test]
fn replay_blocks_matching_command() {
    let cmds = vec!["grep foo .".to_string()];
    let rules = vec![rule("no-grep", r"\bgrep\b")];
    let report = replay(&cmds, &rules);
    assert_eq!(report.blocked, 1);
    assert_eq!(report.passed, 0);
    assert!(matches!(
        &report.entries[0].verdict,
        ReplayVerdict::Blocked { rule_id, .. } if rule_id == "no-grep"
    ));
}

#[test]
fn replay_passes_non_matching_command() {
    let cmds = vec!["cargo build".to_string()];
    let rules = vec![rule("no-grep", r"\bgrep\b")];
    let report = replay(&cmds, &rules);
    assert_eq!(report.passed, 1);
    assert_eq!(report.blocked, 0);
}

#[test]
fn replay_mixed_commands_counted_correctly() {
    let cmds = vec![
        "grep foo .".to_string(),
        "cargo build".to_string(),
        "grep bar baz".to_string(),
    ];
    let rules = vec![rule("no-grep", r"\bgrep\b")];
    let report = replay(&cmds, &rules);
    assert_eq!(report.blocked, 2);
    assert_eq!(report.passed, 1);
}

#[test]
fn format_text_contains_summary_line() {
    let cmds = vec!["grep foo .".to_string()];
    let rules = vec![rule("no-grep", r"\bgrep\b")];
    let report = replay(&cmds, &rules);
    let text = format_text(&report);
    assert!(text.contains("1 blocked"));
    assert!(text.contains("0 passed"));
}

#[test]
fn format_text_shows_rule_id_for_blocked() {
    let cmds = vec!["grep foo .".to_string()];
    let rules = vec![rule("no-grep", r"\bgrep\b")];
    let report = replay(&cmds, &rules);
    let text = format_text(&report);
    assert!(text.contains("no-grep"));
}
