use crs_core::shell::{parse, ShellCmd};

#[test]
fn parse_returns_none_for_empty_string() {
    assert!(parse("").is_none());
}

#[test]
fn parse_returns_none_for_whitespace_only() {
    assert!(parse("   ").is_none());
    assert!(parse("\t\n").is_none());
}

#[test]
fn parse_simple_command() {
    let cmd = parse("cargo build").unwrap();
    assert_eq!(cmd.argv, vec!["cargo", "build"]);
}

#[test]
fn parse_single_token() {
    let cmd = parse("ls").unwrap();
    assert_eq!(cmd.argv, vec!["ls"]);
}

#[test]
fn parse_quoted_strings() {
    let cmd = parse(r#"echo "hello world""#).unwrap();
    assert_eq!(cmd.argv, vec!["echo", "hello world"]);
}

#[test]
fn parse_single_quoted_strings() {
    let cmd = parse("echo 'hello world'").unwrap();
    assert_eq!(cmd.argv, vec!["echo", "hello world"]);
}

#[test]
fn parse_escaped_characters() {
    let cmd = parse(r"echo hello\ world").unwrap();
    assert_eq!(cmd.argv, vec!["echo", "hello world"]);
}

#[test]
fn parse_with_leading_trailing_whitespace() {
    let cmd = parse("  cargo build  ").unwrap();
    assert_eq!(cmd.argv, vec!["cargo", "build"]);
}

#[test]
fn name_returns_first_element() {
    let cmd = parse("cargo build --release").unwrap();
    assert_eq!(cmd.name(), "cargo");
}

#[test]
fn name_returns_empty_for_empty_argv() {
    let cmd = ShellCmd { argv: vec![] };
    assert_eq!(cmd.name(), "");
}

#[test]
fn args_returns_tail() {
    let cmd = parse("cargo build --release").unwrap();
    assert_eq!(cmd.args(), &["build", "--release"]);
}

#[test]
fn args_returns_empty_for_single_token() {
    let cmd = parse("ls").unwrap();
    assert!(cmd.args().is_empty());
}

#[test]
fn args_returns_empty_for_empty_argv() {
    let cmd = ShellCmd { argv: vec![] };
    assert!(cmd.args().is_empty());
}

#[test]
fn parse_complex_command() {
    let cmd = parse("git commit -m 'initial commit'").unwrap();
    assert_eq!(cmd.argv, vec!["git", "commit", "-m", "initial commit"]);
}

#[test]
fn parse_plain_word_gives_one_word() {
    let c = crs_core::shell::parse("  cargo-build_1.0 ").expect("a plain word parses");
    assert_eq!(c.argv, vec!["cargo-build_1.0".to_string()]);
}

#[test]
fn parse_whitespace_only_is_none() {
    assert!(crs_core::shell::parse(" \t\n ").is_none());
    assert!(crs_core::shell::parse("").is_none());
}
