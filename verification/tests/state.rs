use crs_core::clock::now_secs;
use crs_core::rules::FailureLearning;
use crs_core::state::{check_learned, command_key, record_failure, FailureEntry, State};

fn fl(threshold: usize, window: u64) -> FailureLearning {
    FailureLearning {
        enabled: true,
        block_threshold: threshold,
        window_seconds: window,
        state_file: None,
        max_tracked_commands: 200,
        cleanup_after_seconds: 3600,
        message_template: None,
    }
}

#[test]
fn record_failure_creates_entry() {
    let st = record_failure(State::new(), "grep foo .", &fl(3, 300));
    assert_eq!(st.failures.len(), 1);
    let entry = &st.failures[0].1;
    assert_eq!(entry.timestamps.len(), 1);
}

#[test]
fn record_failure_appends() {
    let st = record_failure(State::new(), "grep foo .", &fl(3, 300));
    let st = record_failure(st, "grep foo .", &fl(3, 300));
    let entry = &st.failures[0].1;
    assert_eq!(entry.timestamps.len(), 2);
}

#[test]
fn prune_removes_old_timestamps() {
    let mut st = State::new();
    let key = command_key("grep foo .");
    st.insert(
        key,
        FailureEntry {
            command_preview: "grep foo .".to_string(),
            timestamps: vec![0],
            last_seen: now_secs(),
        },
    );
    let st = record_failure(st, "grep foo .", &fl(3, 300));
    let entry = &st.failures[0].1;
    assert_eq!(entry.timestamps.len(), 1);
}

#[test]
fn prune_evicts_over_max() {
    let mut st = State::new();
    let now = now_secs();
    let fl_cfg = FailureLearning {
        enabled: true,
        block_threshold: 3,
        window_seconds: 300,
        state_file: None,
        max_tracked_commands: 5,
        cleanup_after_seconds: 3600,
        message_template: None,
    };
    for i in 0..5u64 {
        let cmd = format!("cmd-{i}");
        let key = command_key(&cmd);
        st.insert(
            key,
            FailureEntry {
                command_preview: cmd,
                timestamps: vec![now - i],
                last_seen: now - i,
            },
        );
    }
    let st = record_failure(st, "cmd-new", &fl_cfg);
    assert!(st.failures.len() <= 5);
}

#[test]
fn check_learned_below_threshold() {
    let mut st = State::new();
    let now = now_secs();
    let key = command_key("grep foo .");
    st.insert(
        key,
        FailureEntry {
            command_preview: "grep foo .".to_string(),
            timestamps: vec![now, now],
            last_seen: now,
        },
    );
    assert!(check_learned("grep foo .", &st, &fl(3, 300)).is_none());
}

#[test]
fn check_learned_at_threshold() {
    let mut st = State::new();
    let now = now_secs();
    let key = command_key("grep foo .");
    st.insert(
        key,
        FailureEntry {
            command_preview: "grep foo .".to_string(),
            timestamps: vec![now, now, now],
            last_seen: now,
        },
    );
    assert!(check_learned("grep foo .", &st, &fl(3, 300)).is_some());
}

#[test]
fn check_learned_disabled() {
    let mut st = State::new();
    let now = now_secs();
    let key = command_key("grep foo .");
    st.insert(
        key,
        FailureEntry {
            command_preview: "grep foo .".to_string(),
            timestamps: vec![now, now, now],
            last_seen: now,
        },
    );
    let mut fl_cfg = fl(3, 300);
    fl_cfg.enabled = false;
    assert!(check_learned("grep foo .", &st, &fl_cfg).is_none());
}

#[test]
fn cleanup_removes_stale_entries() {
    let mut st = State::new();
    let key = command_key("grep foo .");
    st.insert(
        key,
        FailureEntry {
            command_preview: "grep foo .".to_string(),
            timestamps: vec![],
            last_seen: 0,
        },
    );
    let fl_cfg = FailureLearning {
        enabled: true,
        block_threshold: 3,
        window_seconds: 300,
        state_file: None,
        max_tracked_commands: 200,
        cleanup_after_seconds: 1,
        message_template: None,
    };
    let st = record_failure(st, "other-cmd", &fl_cfg);
    assert!(!st.contains_key(&command_key("grep foo .")));
}

#[test]
fn third_failure_in_window_blocks() {
    let cfg = fl(3, 300);
    let st = crs_core::state::record_failure_at(State::new(), "make test", &cfg, 1_000);
    let st = crs_core::state::record_failure_at(st, "make test", &cfg, 1_010);
    assert!(check_learned("make test", &st, &cfg).is_none());
    let st = crs_core::state::record_failure_at(st, "make test", &cfg, 1_020);
    let msg = check_learned("make test", &st, &cfg).expect("blocked at the threshold");
    assert!(msg.contains("failed 3 times in the last 5 minutes"));
}

#[test]
fn failures_outside_window_do_not_count() {
    let cfg = fl(3, 300);
    let st = crs_core::state::record_failure_at(State::new(), "make test", &cfg, 1_000);
    let st = crs_core::state::record_failure_at(st, "make test", &cfg, 1_010);
    let st = crs_core::state::record_failure_at(st, "make test", &cfg, 2_000);
    assert!(check_learned("make test", &st, &cfg).is_none());
    assert_eq!(st.failures[0].1.timestamps, vec![2_000]);
}

#[test]
fn command_key_is_lowercase_hex_sha256() {
    assert_eq!(command_key("grep foo ."), "32ed316c881ff4c5bae2dc4719ef57f2633852d531fd74acd0d3de2946132d71");
}
