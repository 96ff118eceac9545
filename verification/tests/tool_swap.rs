use crs_core::tool_swap::{
    apply, expand_path, finish_read, parse_n_file, parse_usize, FileFacts, ReadLines, SwapPlan, ToolAction,
    ToolInput, ToolSwapConfig,
};

fn cfg() -> ToolSwapConfig {
    ToolSwapConfig::default()
}

fn glob_of(plan: SwapPlan) -> String {
    match plan {
        SwapPlan::Decided(ToolAction::SwapTool { tool_name, tool_input: ToolInput::Glob { pattern } }) => {
            assert_eq!(tool_name, "Glob");
            pattern
        }
        other => panic!("expected a Glob swap, got {other:?}"),
    }
}

fn passthrough(plan: SwapPlan) -> bool {
    matches!(plan, SwapPlan::Decided(ToolAction::Passthrough))
}

#[test]
fn config_defaults() {
    let cfg = ToolSwapConfig::default();
    assert_eq!(cfg.cat_token_limit, 4000);
    assert_eq!(cfg.tail_limit_max, 500);
    assert_eq!(cfg.find_depth_max, 10);
}

#[test]
fn cat_with_flags_passthrough() {
    assert!(passthrough(apply("cat -n file.txt", &cfg())));
}

#[test]
fn cat_multiple_files_passthrough() {
    assert!(passthrough(apply("cat a.txt b.txt", &cfg())));
}

#[test]
fn find_name_glob() {
    assert_eq!(glob_of(apply("find . -name '*.rs'", &cfg())), "**/*.rs");
}

#[test]
fn find_with_path() {
    assert_eq!(glob_of(apply("find /Users/joe/dev -name '*.toml'", &cfg())), "/Users/joe/dev/**/*.toml");
}

#[test]
fn find_exec_passthrough() {
    assert!(passthrough(apply("find . -name '*.rs' -exec cat {} \\;", &cfg())));
}

#[test]
fn find_no_name_passthrough() {
    assert!(passthrough(apply("find . -type f", &cfg())));
}

#[test]
fn unknown_command_passthrough() {
    assert!(passthrough(apply("git status", &cfg())));
}

#[test]
fn empty_command_passthrough() {
    assert!(passthrough(apply("", &cfg())));
}

#[test]
fn find_trailing_slash_and_depth_limit() {
    assert_eq!(glob_of(apply("find src/ -maxdepth 3 -name '*.rs'", &cfg())), "src/**/*.rs");
    assert!(passthrough(apply("find . -maxdepth 11 -name '*.rs'", &cfg())));
}

#[test]
fn cat_single_file_plans_a_read() {
    match apply("cat notes.txt", &cfg()) {
        SwapPlan::ReadFile { file, lines } => {
            assert_eq!(file, "notes.txt");
            assert_eq!(lines, ReadLines::Whole);
        }
        other => panic!("expected a read, got {other:?}"),
    }
}

#[test]
fn tail_exceeds_limit_max_passthrough() {
    let cfg = ToolSwapConfig { tail_limit_max: 500, ..Default::default() };
    assert!(passthrough(apply("tail -n 600 f.txt", &cfg)));
}

#[test]
fn head_short_flag_plans_n_lines() {
    match apply("head -5 f.txt", &cfg()) {
        SwapPlan::ReadFile { lines, .. } => assert_eq!(lines, ReadLines::Head(5)),
        other => panic!("expected a read, got {other:?}"),
    }
}

#[test]
fn parse_n_file_default_when_no_flag() {
    let args = vec!["somefile.txt".to_string()];
    assert_eq!(parse_n_file(&args, 10), Some((10, "somefile.txt".to_string())));
}

#[test]
fn parse_n_file_explicit_count() {
    let args = vec!["-n".to_string(), "42".to_string(), "file.rs".to_string()];
    assert_eq!(parse_n_file(&args, 10), Some((42, "file.rs".to_string())));
}

#[test]
fn parse_n_file_rejects_unknown_flag_and_missing_file() {
    assert_eq!(parse_n_file(&["-q".to_string(), "f".to_string()], 10), None);
    assert_eq!(parse_n_file(&["-n".to_string(), "3".to_string()], 10), None);
    assert_eq!(parse_n_file(&["-n".to_string(), "x".to_string(), "f".to_string()], 10), None);
}

#[test]
fn parse_usize_follows_from_str() {
    assert_eq!(parse_usize("42"), Some(42));
    assert_eq!(parse_usize("+7"), Some(7));
    assert_eq!(parse_usize(""), None);
    assert_eq!(parse_usize("+"), None);
    assert_eq!(parse_usize("-1"), None);
    assert_eq!(parse_usize("1_0"), None);
    assert_eq!(parse_usize("99999999999999999999999"), None);
}

#[test]
fn tail_computes_offset() {
    let facts = FileFacts { size: Some(400), line_lengths: Some(vec![7; 20]), newlines: Some(50) };
    let a = finish_read("/tmp/f", ReadLines::Tail(10), &facts, &cfg());
    assert_eq!(
        a,
        ToolAction::SwapTool {
            tool_name: "Read".to_string(),
            tool_input: ToolInput::Read { file_path: "/tmp/f".to_string(), offset: Some(40), limit: Some(10) },
        }
    );
}

#[test]
fn cat_single_file_small() {
    let facts = FileFacts { size: Some(40), line_lengths: Some(vec![6; 5]), newlines: Some(5) };
    let a = finish_read("/tmp/f", ReadLines::Whole, &facts, &cfg());
    assert_eq!(
        a,
        ToolAction::SwapTool {
            tool_name: "Read".to_string(),
            tool_input: ToolInput::Read { file_path: "/tmp/f".to_string(), offset: None, limit: None },
        }
    );
}

#[test]
fn large_file_gets_a_line_limit() {
    // 40_000 bytes is 10_000 tokens, over the 4000 budget; lines average 20 bytes.
    let facts = FileFacts { size: Some(40_000), line_lengths: Some(vec![19; 30]), newlines: Some(2000) };
    match finish_read("/f", ReadLines::Whole, &facts, &cfg()) {
        ToolAction::SwapTool { tool_input: ToolInput::Read { limit, .. }, .. } => assert_eq!(limit, Some(800)),
        other => panic!("{other:?}"),
    }
    match finish_read("/f", ReadLines::Head(20), &facts, &cfg()) {
        ToolAction::SwapTool { tool_input: ToolInput::Read { limit, .. }, .. } => assert_eq!(limit, Some(20)),
        other => panic!("{other:?}"),
    }
}

#[test]
fn expand_path_replaces_leading_home() {
    let home = Some("/home/joe".to_string());
    assert_eq!(expand_path("~/a.txt", &home), "/home/joe/a.txt");
    assert_eq!(expand_path("$HOME/b", &home), "/home/joe/b");
    assert_eq!(expand_path("x/~", &home), "x/~");
    assert_eq!(expand_path("~/a", &None), "~/a");
}

fn read_limit(action: ToolAction) -> Option<usize> {
    match action {
        ToolAction::SwapTool { tool_name, tool_input: ToolInput::Read { limit, .. } } => {
            assert_eq!(tool_name, "Read");
            limit
        }
        other => panic!("expected SwapTool, got {other:?}"),
    }
}

fn hundred_lines() -> FileFacts {
    FileFacts { size: Some(800), line_lengths: Some(vec![8; 100]), newlines: Some(100) }
}

#[test]
fn head_n_flag() {
    match apply("head -n 20 /tmp/lines.txt", &cfg()) {
        SwapPlan::ReadFile { file, lines } => {
            assert_eq!(lines, ReadLines::Head(20));
            let action = finish_read(&file, lines, &hundred_lines(), &cfg());
            assert_eq!(read_limit(action), Some(20));
        }
        other => panic!("expected SwapTool, got {other:?}"),
    }
}

#[test]
fn head_short_flag() {
    match apply("head -5 /tmp/lines.txt", &cfg()) {
        SwapPlan::ReadFile { file, lines } => {
            let action = finish_read(&file, lines, &hundred_lines(), &cfg());
            assert_eq!(read_limit(action), Some(5));
        }
        other => panic!("expected SwapTool, got {other:?}"),
    }
}
