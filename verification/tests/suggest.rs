use crs_core::history::CommandFreq;
use crs_core::suggest::suggest;

fn freq(stem: &str, count: u64, example: &str) -> CommandFreq {
    CommandFreq {
        stem: stem.to_string(),
        count,
        example: example.to_string(),
        est_tokens: count * 10, // 10 tokens per occurrence for testing
        rule_id: None,
    }
}

#[test]
fn suggest_empty_input_returns_empty() {
    assert!(suggest(&[]).is_empty());
}

#[test]
fn suggest_single_command_produces_rule() {
    let rules = suggest(&[freq("grep", 5, "grep foo .")]);
    assert_eq!(rules.len(), 1);
    assert_eq!(rules[0].id, "no-grep");
    assert!(rules[0].pattern.contains("grep"));
    assert_eq!(rules[0].count, 5);
    assert_eq!(rules[0].example, "grep foo .");
}

#[test]
fn suggest_sorted_by_score_descending() {
    let input = vec![
        freq("ls", 2, "ls -la"),
        freq("grep", 10, "grep foo ."),
        freq("cat", 5, "cat file.txt"),
    ];
    let rules = suggest(&input);
    // grep: 10 * 100 = 1000, cat: 5 * 50 = 250, ls: 2 * 20 = 40
    assert_eq!(rules[0].id, "no-grep");
    assert_eq!(rules[1].id, "no-cat");
    assert_eq!(rules[2].id, "no-ls");
}

#[test]
fn suggest_two_token_stem_makes_compound_pattern() {
    let rules = suggest(&[freq("cargo test", 3, "cargo test -p foo")]);
    assert_eq!(rules[0].id, "no-cargo-test");
    assert!(rules[0].pattern.contains("cargo"));
    assert!(rules[0].pattern.contains("test"));
}

#[test]
fn suggest_skips_empty_stems() {
    let rules = suggest(&[freq("", 10, "")]);
    assert!(rules.is_empty());
}

#[test]
fn suggest_message_contains_stem() {
    let rules = suggest(&[freq("grep", 1, "grep x .")]);
    assert!(rules[0].message.contains("Grep"));
}

// ── target_commands tests ────────────────────────────────────────────

#[test]
fn known_commands_get_target_commands() {
    let rules = suggest(&[freq("grep", 5, "grep foo .")]);
    assert_eq!(rules[0].target_commands, vec!["grep", "rg"]);
}

#[test]
fn unknown_commands_get_stem_as_target() {
    let rules = suggest(&[freq("rustup", 3, "rustup show")]);
    assert_eq!(rules[0].target_commands, vec!["rustup"]);
}



#[test]
fn curl_maps_to_webfetch() {
    let rules = suggest(&[freq("curl", 10, "curl -s https://example.com")]);
    assert!(rules[0].message.contains("WebFetch"));
    assert_eq!(rules[0].target_commands, vec!["curl", "wget"]);
}

#[test]
fn sleep_maps_to_run_in_background() {
    let rules = suggest(&[freq("sleep", 3, "sleep 5")]);
    assert!(rules[0].message.contains("run_in_background"));
}

#[test]
fn suggest_equal_scores_keep_input_order() {
    let rules = suggest(&[freq("make", 2, "make"), freq("grep", 5, "grep x"), freq("find", 2, "find ."), freq("cat", 2, "cat f")]);
    let ids: Vec<&str> = rules.iter().map(|r| r.id.as_str()).collect();
    assert_eq!(ids, vec!["no-grep", "no-make", "no-find", "no-cat"]);
}
