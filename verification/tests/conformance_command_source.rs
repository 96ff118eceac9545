use crs_core::history::{CommandRecord, CommandSource};
use crs_core::testing::{MockCommandSource, MockWorkspace};

fn assert_command_source_contract(source: &impl CommandSource, expected_count: usize) {
    let records = source.commands();
    assert_eq!(records.len(), expected_count, "contract 1: all records are listed");
    let again = source.commands();
    assert_eq!(records.len(), again.len(), "contract 3: listing again is stable");
}

#[test]
fn empty_source_returns_empty_iterator() {
    let source = MockCommandSource(vec![]);
    assert_command_source_contract(&source, 0);
}

#[test]
fn mock_source_with_records_satisfies_contract() {
    let records = vec![
        CommandRecord {
            command: "cargo build".to_string(),
            session_id: "sess-1".to_string(),
            cwd: "/project".to_string(),
            timestamp: Some("2024-01-01T00:00:00Z".to_string()),
            output_bytes: Some(1024),
        },
        CommandRecord {
            command: "cargo test".to_string(),
            session_id: "sess-2".to_string(),
            cwd: "/other".to_string(),
            timestamp: None,
            output_bytes: None,
        },
    ];
    let source = MockCommandSource(records);
    assert_command_source_contract(&source, 2);

    let recs = source.commands();
    assert_eq!(recs[0].command, "cargo build");
    assert_eq!(recs[0].session_id, "sess-1");
    assert_eq!(recs[0].cwd, "/project");
    assert_eq!(recs[0].timestamp.as_deref(), Some("2024-01-01T00:00:00Z"));
    assert_eq!(recs[0].output_bytes, Some(1024));

    assert_eq!(recs[1].command, "cargo test");
    assert!(recs[1].timestamp.is_none());
    assert!(recs[1].output_bytes.is_none());
}

#[test]
fn mock_source_via_mock_workspace_satisfies_contract() {
    let ws = MockWorkspace::new()
        .with_command("grep foo .")
        .with_command_ts("cargo build", "2099-01-01T00:00:00Z")
        .with_command_bytes("cargo test", 4096);
    let source = ws.command_source();
    assert_command_source_contract(&source, 3);
}
