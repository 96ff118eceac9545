use crs_core::filters::{
    apply_filter, apply_redaction, find_rule, run_filter, FilterMode, FilterPayload, FilterResult, FilterRule, FiltersConfig,
    ObfsckFilters, RedactRule,
};

fn make_rule(mode: FilterMode, max_lines: usize) -> FilterRule {
    FilterRule {
        pattern: "cargo nextest".to_string(),
        mode,
        max_lines,
        match_pattern: None,
    }
}

fn cfg_with(mode: FilterMode) -> FiltersConfig {
    FiltersConfig {
        filters: vec![FilterRule {
            pattern: "cargo nextest".to_string(),
            mode,
            max_lines: 3,
            match_pattern: None,
        }],
        ..Default::default()
    }
}

fn payload(cmd: &str, output: &str, exit_code: i64) -> FilterPayload {
    FilterPayload {
        command: cmd.to_string(),
        output: output.to_string(),
        exit_code,
    }
}

#[test]
fn passthrough_returns_output_unchanged() {
    let rule = make_rule(FilterMode::Passthrough, 50);
    assert_eq!(
        apply_filter("some output", 0, &rule),
        Some("some output".to_string())
    );
}

#[test]
fn failures_only_suppresses_on_success() {
    let rule = make_rule(FilterMode::FailuresOnly, 50);
    assert_eq!(apply_filter("output", 0, &rule), None);
}

#[test]
fn failures_only_passes_on_failure() {
    let rule = make_rule(FilterMode::FailuresOnly, 50);
    assert_eq!(
        apply_filter("error output", 1, &rule),
        Some("error output".to_string())
    );
}

#[test]
fn errors_only_filters_to_error_lines() {
    let rule = make_rule(FilterMode::ErrorsOnly, 50);
    let output = "line 1\nerror: something failed\nline 3\nERROR: another\n";
    let result = apply_filter(output, 0, &rule).unwrap();
    assert!(result.contains("error: something failed"));
    assert!(result.contains("ERROR: another"));
    assert!(!result.contains("line 1"));
}

#[test]
fn truncate_keeps_first_n_lines() {
    let rule = make_rule(FilterMode::Truncate, 2);
    let output = "line1\nline2\nline3\nline4";
    let result = apply_filter(output, 0, &rule).unwrap();
    assert!(result.starts_with("line1\nline2"));
    assert!(result.contains("2 lines omitted"));
}

#[test]
fn run_filter_passthrough_on_no_matching_rule() {
    let cfg = cfg_with(FilterMode::FailuresOnly);
    let p = payload("doob todo list", "output", 0);
    assert_eq!(run_filter(&p, &cfg), FilterResult::Passthrough);
}

#[test]
fn run_filter_suppress_on_failures_only_success() {
    let cfg = cfg_with(FilterMode::FailuresOnly);
    let p = payload("cargo nextest run", "test output", 0);
    assert_eq!(run_filter(&p, &cfg), FilterResult::Suppress);
}

#[test]
fn run_filter_replace_on_truncate() {
    let cfg = cfg_with(FilterMode::Truncate);
    let output = "a\nb\nc\nd\ne";
    let p = payload("cargo nextest run", output, 0);
    match run_filter(&p, &cfg) {
        FilterResult::Replace(s) => {
            assert!(s.contains("2 lines omitted"));
        }
        other => panic!("expected Replace, got {other:?}"),
    }
}

#[test]
fn find_rule_returns_first_match() {
    let cfg = FiltersConfig {
        filters: vec![
            FilterRule {
                pattern: "cargo nextest".to_string(),
                mode: FilterMode::FailuresOnly,
                max_lines: 50,
match_pattern: None,
            },
            FilterRule {
                pattern: "cargo".to_string(),
                mode: FilterMode::Passthrough,
                max_lines: 50,
match_pattern: None,
            },
        ],
        ..Default::default()
    };
    let rule = find_rule("cargo nextest run", &cfg).unwrap();
    assert_eq!(rule.mode, FilterMode::FailuresOnly);
}

#[test]
fn find_rule_returns_none_on_no_match() {
    let cfg = FiltersConfig {
        filters: vec![FilterRule {
            pattern: "cargo".to_string(),
            mode: FilterMode::Passthrough,
            max_lines: 50,
match_pattern: None,
        }],
        ..Default::default()
    };
    assert!(find_rule("doob todo list", &cfg).is_none());
}

fn make_obfsck_filters(patterns: &[(&str, &str)]) -> ObfsckFilters {
    ObfsckFilters {
        filters: patterns
            .iter()
            .map(|(label, pattern)| RedactRule {
                label: label.to_string(),
                pattern: pattern.to_string(),
            })
            .collect(),
    }
}

#[test]
fn apply_redaction_replaces_matching_line() {
    let filters = make_obfsck_filters(&[("api-key", r"sk-[A-Za-z0-9]{10,}")]);
    let output = "some output\nsk-abc1234567890 is a secret\nclean line";
    let result = apply_redaction(output, &filters);
    assert!(
        result.contains("[REDACTED]"),
        "matching line must be redacted"
    );
    assert!(
        result.contains("some output"),
        "non-matching lines must be preserved"
    );
    assert!(
        result.contains("clean line"),
        "non-matching lines must be preserved"
    );
    assert!(
        !result.contains("sk-abc1234567890"),
        "secret must not appear in output"
    );
}

#[test]
fn apply_redaction_empty_filters_passthrough() {
    let filters = make_obfsck_filters(&[]);
    let output = "sk-abc1234567890 is a secret";
    let result = apply_redaction(output, &filters);
    assert_eq!(result, output);
}

#[test]
fn apply_redaction_no_match_passthrough() {
    let filters = make_obfsck_filters(&[("api-key", r"sk-[A-Za-z0-9]{10,}")]);
    let output = "no secrets here";
    let result = apply_redaction(output, &filters);
    assert_eq!(result, output);
}

#[test]
fn apply_redaction_preserves_trailing_newline() {
    let filters = make_obfsck_filters(&[("key", r"secret")]);
    let output = "clean\nsecret line\n";
    let result = apply_redaction(output, &filters);
    assert!(result.ends_with('\n'), "trailing newline must be preserved");
    assert!(result.contains("[REDACTED]"));
}

#[test]
fn default_max_lines_value() {
    assert_eq!(crs_core::filters::default_max_lines(), 50);
}

#[test]
fn match_lines_keeps_matching_lines_on_success() {
    let rule = FilterRule {
        pattern: "cargo".to_string(),
        mode: FilterMode::MatchLines,
        max_lines: 50,
        match_pattern: Some("^test .* ok$".to_string()),
    };
    let out = "running 2 tests\ntest a ... ok\ntest b ... FAILED\ntest c ... ok";
    assert_eq!(apply_filter(out, 0, &rule), Some("test a ... ok\ntest c ... ok".to_string()));
    assert_eq!(apply_filter(out, 101, &rule), Some(out.to_string()));
    assert_eq!(apply_filter("nothing", 0, &rule), None);
}

#[test]
fn truncate_exact_text() {
    let rule = FilterRule { pattern: "x".to_string(), mode: FilterMode::Truncate, max_lines: 1, match_pattern: None };
    assert_eq!(apply_filter("a\r\nb\nc\n", 0, &rule), Some("a\n... (2 lines omitted)".to_string()));
    assert_eq!(apply_filter("a\nb", 0, &FilterRule { max_lines: 2, ..rule.clone() }), Some("a\nb".to_string()));
}

#[test]
fn errors_only_without_errors_suppresses() {
    let rule = FilterRule { pattern: "x".to_string(), mode: FilterMode::ErrorsOnly, max_lines: 50, match_pattern: None };
    assert_eq!(apply_filter("all good\nfine", 1, &rule), None);
}

#[test]
fn run_filter_passthrough_when_output_unchanged() {
    let cfg = FiltersConfig {
        filters: vec![FilterRule { pattern: "ls".to_string(), mode: FilterMode::Truncate, max_lines: 10, match_pattern: None }],
        ..Default::default()
    };
    let p = FilterPayload { command: "ls".to_string(), output: "a\nb".to_string(), exit_code: 0 };
    assert_eq!(run_filter(&p, &cfg), FilterResult::Passthrough);
}

#[test]
fn redaction_with_only_invalid_patterns_passes_through() {
    let f = ObfsckFilters { filters: vec![RedactRule { label: "bad".to_string(), pattern: "[".to_string() }] };
    assert_eq!(apply_redaction("secret\n", &f), "secret\n");
}

#[test]
fn redaction_exact_output() {
    let f = ObfsckFilters { filters: vec![RedactRule { label: "k".to_string(), pattern: "secret".to_string() }] };
    assert_eq!(apply_redaction("clean\nsecret line\n", &f), "clean\n[REDACTED]\n");
    assert_eq!(apply_redaction("a secret", &f), "[REDACTED]");
}
