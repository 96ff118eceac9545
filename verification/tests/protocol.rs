use crs_core::config::HookProtocol;
use crs_core::protocol::{combined_output, deny_exit_code};

#[test]
fn deny_exit_code_by_protocol() {
    assert_eq!(deny_exit_code(HookProtocol::Claude), 2);
    assert_eq!(deny_exit_code(HookProtocol::Codex), 0);
}

#[test]
fn combined_output_puts_stdout_first() {
    assert_eq!(combined_output("world", "hello").as_deref(), Some("worldhello"));
}

#[test]
fn combined_output_single_field() {
    assert_eq!(combined_output("from stdout", "").as_deref(), Some("from stdout"));
    assert_eq!(combined_output("", "from output").as_deref(), Some("from output"));
}

#[test]
fn combined_output_none_when_both_empty() {
    assert_eq!(combined_output("", ""), None);
}
