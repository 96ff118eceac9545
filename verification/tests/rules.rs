use crs_core::rules::{check, check_pipeline, Rule};

fn make_rule(id: &str, pattern: &str) -> Rule {
    Rule {
        id: id.to_string(),
        enabled: true,
        pattern: pattern.to_string(),
        pattern_flags: String::new(),
        exceptions: vec![],
        target_commands: vec![],
        message: None,
    }
}

fn make_targeted_rule(id: &str, pattern: &str, targets: Vec<&str>) -> Rule {
    Rule {
        id: id.to_string(),
        enabled: true,
        pattern: pattern.to_string(),
        pattern_flags: String::new(),
        exceptions: vec![],
        target_commands: targets.into_iter().map(String::from).collect(),
        message: Some(format!("Use the dedicated tool instead of {id}.")),
    }
}

#[test]
fn rule_matches_pattern() {
    let rules = vec![make_rule("no-grep", r"\bgrep\b")];
    let result = check("grep foo .", &rules);
    assert!(result.is_some());
    assert!(result.unwrap().0.contains("no-grep"));
}

#[test]
fn rule_no_match() {
    let rules = vec![make_rule("no-grep", r"\bgrep\b")];
    assert!(check("ls -la", &rules).is_none());
}

#[test]
fn rule_case_insensitive_flag() {
    let mut rule = make_rule("no-grep", r"\bgrep\b");
    rule.pattern_flags = "i".to_string();
    assert!(check("GREP foo .", &[rule]).is_some());
}

#[test]
fn rule_exception_bypasses_block() {
    let mut rule = make_rule("no-grep", r"\bgrep\b");
    rule.exceptions = vec![r"\| grep".to_string()];
    assert!(check("cmd | grep foo", &[rule]).is_none());
}

#[test]
fn rule_disabled_skipped() {
    let mut rule = make_rule("no-grep", r"\bgrep\b");
    rule.enabled = false;
    assert!(check("grep foo .", &[rule]).is_none());
}

#[test]
fn rule_bad_regex_skipped() {
    let rule = make_rule("bad", r"[invalid");
    assert!(check("anything", &[rule]).is_none());
}

#[test]
fn no_rules_allows_all() {
    assert!(check("grep foo .", &[]).is_none());
}

// ── check_pipeline ────────────────────────────────────────────────────

#[test]
fn pipeline_clean_command_passes() {
    let rules = vec![make_rule("no-grep", r"\bgrep\b")];
    assert!(check_pipeline("cargo build && git status", &rules).is_none());
}

#[test]
fn pipeline_second_segment_blocked() {
    let rules = vec![make_rule("no-grep", r"\bgrep\b")];
    let result = check_pipeline("cargo build && grep foo .", &rules);
    assert!(result.is_some());
    assert_eq!(result.unwrap().0, "no-grep");
}

#[test]
fn pipeline_first_segment_blocked() {
    let rules = vec![make_rule("no-grep", r"\bgrep\b")];
    assert!(check_pipeline("grep foo . && cargo test", &rules).is_some());
}

#[test]
fn pipeline_pipe_exception_still_works() {
    // `| grep` exception matches the whole piped segment — pipe is NOT split
    let mut rule = make_rule("no-grep", r"\bgrep\b");
    rule.exceptions = vec![r"\| grep".to_string()];
    assert!(check_pipeline("cmd | grep foo", &[rule]).is_none());
}

#[test]
fn pipeline_semicolon_split() {
    let rules = vec![make_rule("no-grep", r"\bgrep\b")];
    assert!(check_pipeline("echo hi; grep foo .", &rules).is_some());
}

#[test]
fn pipeline_or_or_split() {
    let rules = vec![make_rule("no-grep", r"\bgrep\b")];
    assert!(check_pipeline("cargo build || grep foo .", &rules).is_some());
}

#[test]
fn rule_custom_message_returned() {
    let mut rule = make_rule("no-grep", r"\bgrep\b");
    rule.message = Some("Use the Grep tool.".to_string());
    assert_eq!(
        check("grep foo .", &[rule]).unwrap().1,
        "Use the Grep tool."
    );
}

// ── no-nvm-use-mise rule ──────────────────────────────────────────────

fn nvm_rule() -> Rule {
    Rule {
        id: "no-nvm-use-mise".to_string(),
        enabled: true,
        pattern: r"(?:^|\s)nvm\b".to_string(),
        pattern_flags: String::new(),
        exceptions: vec![],
        target_commands: vec!["nvm".to_string()],
        message: Some(
            "Use `mise use node@<version>` instead of nvm. \
             Example: `mise use node@20` or `mise use --global node@lts`."
                .to_string(),
        ),
    }
}

#[test]
fn nvm_rule_blocks_nvm_install() {
    assert!(check("nvm install 20", &[nvm_rule()]).is_some());
}

#[test]
fn nvm_rule_blocks_nvm_use() {
    assert!(check("nvm use 18", &[nvm_rule()]).is_some());
}

#[test]
fn nvm_rule_blocks_nvm_alias() {
    assert!(check("nvm alias default 20", &[nvm_rule()]).is_some());
}

#[test]
fn nvm_rule_blocks_nvm_ls() {
    assert!(check("nvm ls", &[nvm_rule()]).is_some());
}

#[test]
fn nvm_rule_passes_mise_use_node() {
    assert!(check("mise use node@20", &[nvm_rule()]).is_none());
}

#[test]
fn nvm_rule_message_mentions_mise() {
    let (_, msg) = check("nvm install 20", &[nvm_rule()]).unwrap();
    assert!(msg.contains("mise"));
}

#[test]
fn nvm_rule_id_is_correct() {
    let (rule_id, _) = check("nvm install 20", &[nvm_rule()]).unwrap();
    assert_eq!(rule_id, "no-nvm-use-mise");
}

// ── target_commands gating ────────────────────────────────────────────

fn grep_targeted_rule() -> Rule {
    let mut r = make_targeted_rule("no-grep", r"\bgrep\b", vec!["grep", "rg"]);
    r.exceptions = vec![r"\|\s*grep".to_string()];
    r
}

fn find_targeted_rule() -> Rule {
    make_targeted_rule("no-find", r#"\bfind\s+[./~$"']"#, vec!["find"])
}

fn cat_targeted_rule() -> Rule {
    make_targeted_rule("no-cat", r"\bcat\s+[^|<]", vec!["cat"])
}

// ── true positives: targeted rules still block actual commands ────────

#[test]
fn targeted_grep_blocks_direct_invocation() {
    let rules = vec![grep_targeted_rule()];
    assert!(check("grep foo .", &rules).is_some());
}

#[test]
fn targeted_grep_blocks_in_pipeline_stage() {
    // `grep` is argv[0] of the second pipe stage
    let rules = vec![grep_targeted_rule()];
    // Note: exception `\|\s*grep` will match here, so this is excepted.
    // But a standalone `grep` still blocks:
    assert!(check("grep -r pattern src/", &rules).is_some());
}

#[test]
fn targeted_find_blocks_direct_invocation() {
    let rules = vec![find_targeted_rule()];
    assert!(check("find . -name '*.rs'", &rules).is_some());
}

#[test]
fn targeted_cat_blocks_direct_invocation() {
    let rules = vec![cat_targeted_rule()];
    assert!(check("cat somefile.txt", &rules).is_some());
}

// ── false positives: these must NOT be blocked ───────────────────────

#[test]
fn targeted_grep_allows_word_in_commit_message() {
    let rules = vec![grep_targeted_rule()];
    assert!(check(r#"git commit -m "grep patterns are tricky""#, &rules).is_none());
}

#[test]
fn targeted_grep_allows_word_in_echo() {
    let rules = vec![grep_targeted_rule()];
    assert!(check(r#"echo "use grep for searching""#, &rules).is_none());
}

#[test]
fn targeted_grep_allows_word_in_test_name() {
    let rules = vec![grep_targeted_rule()];
    assert!(check("cargo test grep_test", &rules).is_none());
}

#[test]
fn targeted_find_allows_word_in_commit_message() {
    let rules = vec![find_targeted_rule()];
    assert!(check(r#"git commit -m "find .ctx stuff""#, &rules).is_none());
}

#[test]
fn targeted_find_allows_word_in_echo() {
    let rules = vec![find_targeted_rule()];
    assert!(check(r#"echo "could not find .config""#, &rules).is_none());
}

#[test]
fn targeted_cat_allows_word_in_echo() {
    let rules = vec![cat_targeted_rule()];
    assert!(check(r#"echo "use cat /dev/null trick""#, &rules).is_none());
}

// ── exception compatibility with targeted rules ──────────────────────

#[test]
fn targeted_grep_pipe_exception_still_works() {
    // `| grep` exception applies against the full segment
    let rules = vec![grep_targeted_rule()];
    assert!(check("cargo test | grep passed", &rules).is_none());
}

// ── deny message includes triggering stage ───────────────────────────

#[test]
fn targeted_deny_message_includes_blocked_stage() {
    let rules = vec![grep_targeted_rule()];
    let (_, msg) = check("grep foo .", &rules).unwrap();
    assert!(msg.contains("Blocked command: `grep foo .`"), "msg: {msg}");
}

// ── legacy rules (no target_commands) still work ─────────────────────

#[test]
fn legacy_rule_without_targets_still_matches() {
    let rules = vec![make_rule("no-grep", r"\bgrep\b")];
    // Legacy behaviour: matches the word anywhere in the string
    assert!(check("echo grep is useful", &rules).is_some());
}
