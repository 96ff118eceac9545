use crs_core::history::{discover, CommandSource};
use crs_core::testing::MockWorkspace;

#[test]
fn default_cwd_is_project() {
    let ws = MockWorkspace::new();
    assert_eq!(ws.cwd, "/project");
}

#[test]
fn with_command_uses_default_cwd() {
    let ws = MockWorkspace::new().with_command("cargo build");
    assert_eq!(ws.commands[0].cwd, "/project");
    assert_eq!(ws.commands[0].session_id, "test-session");
}

#[test]
fn with_command_at_overrides_cwd() {
    let ws = MockWorkspace::new().with_command_at("cargo build", "/other");
    assert_eq!(ws.commands[0].cwd, "/other");
}

#[test]
fn with_command_ts_sets_timestamp() {
    let ws = MockWorkspace::new().with_command_ts("cargo build", "2099-01-01T00:00:00Z");
    assert_eq!(
        ws.commands[0].timestamp.as_deref(),
        Some("2099-01-01T00:00:00Z")
    );
}

#[test]
fn with_command_bytes_sets_output_bytes() {
    let ws = MockWorkspace::new().with_command_bytes("cargo build", 4096);
    assert_eq!(ws.commands[0].output_bytes, Some(4096));
}

#[test]
fn with_cwd_affects_subsequent_commands() {
    let ws = MockWorkspace::new()
        .with_cwd("/repo")
        .with_command("cargo test");
    assert_eq!(ws.commands[0].cwd, "/repo");
}

#[test]
fn with_rule_adds_rule() {
    let ws = MockWorkspace::new().with_rule("no-grep", r"\bgrep\b");
    assert_eq!(ws.rules.len(), 1);
    assert_eq!(ws.rules[0].id, "no-grep");
    assert!(ws.rules[0].exceptions.is_empty());
}

#[test]
fn with_rule_exception_adds_exception() {
    let ws = MockWorkspace::new().with_rule_exception("no-grep", r"\bgrep\b", r"\| grep");
    assert_eq!(ws.rules[0].exceptions.len(), 1);
}

#[test]
fn command_source_iterates_all_commands() {
    let ws = MockWorkspace::new()
        .with_command("cargo build")
        .with_command("cargo test");
    let count = ws.command_source().commands().len();
    assert_eq!(count, 2);
}

#[test]
fn discover_opts_scopes_to_cwd() {
    let ws = MockWorkspace::new().with_cwd("/myproject");
    let opts = ws.discover_opts();
    assert!(!opts.all_projects);
    assert_eq!(opts.current_dir.as_deref(), Some("/myproject"));
}

#[test]
fn discover_opts_all_spans_all_projects() {
    let ws = MockWorkspace::new();
    assert!(ws.discover_opts_all().all_projects);
}

#[test]
fn end_to_end_discover_with_mock_workspace() {
    // Use 2-token commands so both share the stem "grep" (3-token cmds get a 2-token stem).
    let ws = MockWorkspace::new()
        .with_command("grep .")
        .with_command("grep /tmp")
        .with_rule("no-grep", r"\bgrep\b");

    let src = ws.command_source();
    let report = discover(&src, &ws.rules, &ws.discover_opts_all());

    assert_eq!(report.scanned_commands, 2);
    assert_eq!(report.intercepted.len(), 1);
    assert_eq!(report.intercepted[0].stem, "grep");
    assert_eq!(report.intercepted[0].count, 2);
}
