use crs_core::history::{discover, stem_of, CommandRecord, CommandSource, DiscoverOpts};
use crs_core::rules::Rule;

#[test]
fn history_stem_bare_command() {
    assert_eq!(stem_of("ls -la"), "ls");
}

#[test]
fn history_stem_two_token_subcommand() {
    assert_eq!(stem_of("cargo nextest run -p crs-core"), "cargo nextest");
}

#[test]
fn history_stem_subcommand_with_flag_token1() {
    assert_eq!(stem_of("git --no-pager log"), "git");
}

#[test]
fn history_stem_strips_path_prefix() {
    assert_eq!(stem_of("/usr/bin/python3 script.py"), "python3");
}

#[test]
fn history_stem_strips_env_assignment() {
    assert_eq!(stem_of("RUST_LOG=debug cargo build"), "cargo");
}

#[test]
fn history_stem_strips_multiple_env_assignments() {
    assert_eq!(stem_of("A=1 B=2 cargo test"), "cargo");
}

#[test]
fn history_stem_empty_command() {
    assert_eq!(stem_of(""), "");
}

#[test]
fn history_stem_single_token() {
    assert_eq!(stem_of("make"), "make");
}

#[test]
fn history_stem_doob_todo() {
    assert_eq!(stem_of("doob todo list --project coursers"), "doob todo");
}

// Minimal CommandSource impl for tests
struct VecSource(Vec<CommandRecord>);
impl CommandSource for VecSource {
    fn commands(&self) -> Vec<CommandRecord> {
        self.0.iter().map(|r| CommandRecord {
            command: r.command.clone(),
            session_id: r.session_id.clone(),
            cwd: r.cwd.clone(),
            timestamp: r.timestamp.clone(),
            output_bytes: r.output_bytes,
        }).collect()
    }
}

fn make_record(command: &str, cwd: &str) -> CommandRecord {
    CommandRecord {
        command: command.to_string(),
        session_id: "sess-1".to_string(),
        cwd: cwd.to_string(),
        timestamp: None,
        output_bytes: None,
    }
}

fn make_rule(id: &str, pattern: &str) -> Rule {
    Rule {
        id: id.to_string(),
        enabled: true,
        pattern: pattern.to_string(),
        pattern_flags: String::new(),
        exceptions: vec![],
        target_commands: vec![],
        message: None,
    }
}

#[test]
fn discover_counts_unhandled_commands() {
    let src = VecSource(vec![
        make_record("doob todo list", "/project"),
        make_record("doob todo list", "/project"),
        make_record("doob todo list", "/project"),
    ]);
    let report = discover(
        &src,
        &[],
        &DiscoverOpts {
            all_projects: true,
            ..Default::default()
        },
    );
    assert_eq!(report.scanned_commands, 3);
    assert_eq!(report.unhandled.len(), 1);
    assert_eq!(report.unhandled[0].stem, "doob todo");
    assert_eq!(report.unhandled[0].count, 3);
}

#[test]
fn discover_counts_intercepted_commands() {
    let src = VecSource(vec![
        make_record("cargo nextest run", "/project"),
        make_record("cargo nextest run -p foo", "/project"),
    ]);
    let rules = vec![make_rule("no-nextest", r"cargo nextest")];
    let report = discover(
        &src,
        &rules,
        &DiscoverOpts {
            all_projects: true,
            ..Default::default()
        },
    );
    assert_eq!(report.intercepted.len(), 1);
    assert_eq!(report.intercepted[0].stem, "cargo nextest");
    assert_eq!(report.intercepted[0].count, 2);
    assert_eq!(report.intercepted[0].est_tokens, 0); // no output_bytes set
}

#[test]
fn discover_filters_by_cwd_when_not_all() {
    let src = VecSource(vec![
        make_record("doob todo", "/project/a"),
        make_record("doob todo", "/project/b"),
    ]);
    let report = discover(
        &src,
        &[],
        &DiscoverOpts {
            all_projects: false,
            current_dir: Some("/project/a".to_string()),
            ..Default::default()
        },
    );
    assert_eq!(report.scanned_commands, 1);
}

#[test]
fn discover_respects_limit() {
    let src = VecSource(
        (0..20)
            .map(|i| make_record(&format!("cmd{i} sub"), "/p"))
            .collect(),
    );
    let report = discover(
        &src,
        &[],
        &DiscoverOpts {
            limit: 5,
            all_projects: true,
            ..Default::default()
        },
    );
    assert!(report.unhandled.len() <= 5);
}

#[test]
fn discover_filters_by_since_days() {
    let old = {
        let mut r = make_record("old cmd", "/p");
        r.timestamp = Some("2020-01-01T00:00:00Z".to_string());
        r
    };
    let new_rec = {
        let mut r = make_record("new cmd here", "/p");
        r.timestamp = Some("2099-12-31T00:00:00Z".to_string());
        r
    };
    let src = VecSource(vec![old, new_rec]);
    let report = discover(
        &src,
        &[],
        &DiscoverOpts {
            since_days: Some(30),
            all_projects: true,
            ..Default::default()
        },
    );
    assert_eq!(report.scanned_commands, 1);
    assert_eq!(report.unhandled[0].stem, "new cmd");
}

#[test]
fn discover_min_count_filters_low_frequency_unhandled() {
    // cmd-a appears 3 times, cmd-b appears 1 time
    let records = vec![
        make_record("cmd-a sub", "/p"),
        make_record("cmd-a sub", "/p"),
        make_record("cmd-a sub", "/p"),
        make_record("cmd-b sub", "/p"),
    ];
    let src = VecSource(records);
    let report = discover(
        &src,
        &[],
        &DiscoverOpts {
            all_projects: true,
            min_count: 2,
            ..Default::default()
        },
    );
    assert_eq!(report.unhandled.len(), 1);
    assert_eq!(report.unhandled[0].stem, "cmd-a");
}

#[test]
fn discover_min_count_filters_low_frequency_intercepted() {
    // Use two different rule-matching stems with different frequencies
    let records = vec![
        make_record("grep foo .", "/p"), // count 1 — below threshold
        make_record("ls -la", "/p"),     // count 3 — above threshold
        make_record("ls /tmp", "/p"),
        make_record("ls /usr", "/p"),
    ];
    let rules = vec![
        make_rule("no-grep", r"\bgrep\b"),
        make_rule("no-ls", r"\bls\b"),
    ];
    let src = VecSource(records);
    let report = discover(
        &src,
        &rules,
        &DiscoverOpts {
            all_projects: true,
            min_count: 2,
            ..Default::default()
        },
    );
    // grep intercepted once — filtered out; ls intercepted 3 times — kept
    assert_eq!(report.intercepted.len(), 1);
    assert_eq!(report.intercepted[0].stem, "ls");
}

#[test]
fn discover_min_count_default_one_shows_all() {
    let src = VecSource(vec![make_record("rare cmd here", "/p")]);
    let report = discover(
        &src,
        &[],
        &DiscoverOpts {
            all_projects: true,
            min_count: 1,
            ..Default::default()
        },
    );
    assert_eq!(report.unhandled.len(), 1);
}

#[test]
fn discover_min_count_zero_treated_as_one() {
    let src = VecSource(vec![make_record("rare cmd here", "/p")]);
    let report = discover(
        &src,
        &[],
        &DiscoverOpts {
            all_projects: true,
            min_count: 0,
            ..Default::default()
        },
    );
    // min_count 0 is treated same as 1 — show everything
    assert_eq!(report.unhandled.len(), 1);
}
