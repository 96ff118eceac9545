use crs_core::hooks::{HookContext, HookEvent, PipelineResult};
use crs_core::log::{entry_from_pipeline, entry_from_pipeline_at, select_entries, LogEntry, LogQuery, Outcome};

fn entry(ts: u64, event: &str, outcome: Outcome) -> LogEntry {
    LogEntry {
        timestamp: ts,
        event: event.to_string(),
        tool_name: Some("Bash".into()),
        target: Some("grep foo".into()),
        exit_code: None,
        matched_rules: vec!["no-grep-use-tool".into()],
        outcome,
    }
}

fn rows() -> Vec<(u64, Option<LogEntry>)> {
    // newest first
    vec![
        (50, Some(entry(50, "PostToolUse", Outcome::Notify { count: 1 }))),
        (40, None),
        (30, Some(entry(30, "PreToolUse", Outcome::Deny { message: "no".into() }))),
        (20, Some(entry(20, "PreToolUse", Outcome::Pass))),
        (10, Some(entry(10, "SessionStart", Outcome::Pass))),
    ]
}

#[test]
fn query_returns_newest_first_skipping_undecodable() {
    let got = select_entries(&LogQuery::default(), rows());
    let ts: Vec<u64> = got.iter().map(|e| e.timestamp).collect();
    assert_eq!(ts, vec![50, 30, 20, 10]);
}

#[test]
fn query_filters_by_event_ignoring_case() {
    let q = LogQuery { event: Some("pretool".into()), ..LogQuery::default() };
    let ts: Vec<u64> = select_entries(&q, rows()).iter().map(|e| e.timestamp).collect();
    assert_eq!(ts, vec![30, 20]);
}

#[test]
fn query_filters_by_outcome_kind() {
    let q = LogQuery { outcome_kind: Some("deny".into()), ..LogQuery::default() };
    let got = select_entries(&q, rows());
    assert_eq!(got.len(), 1);
    assert_eq!(got[0].timestamp, 30);
}

#[test]
fn query_time_window_and_limit() {
    let q = LogQuery { after: Some(10), before: Some(50), ..LogQuery::default() };
    let ts: Vec<u64> = select_entries(&q, rows()).iter().map(|e| e.timestamp).collect();
    assert_eq!(ts, vec![30, 20]);
    let q = LogQuery { before: Some(40), ..LogQuery::default() };
    let ts: Vec<u64> = select_entries(&q, rows()).iter().map(|e| e.timestamp).collect();
    assert_eq!(ts, vec![30, 20, 10]);
    let q = LogQuery { after: Some(10), limit: 2, ..LogQuery::default() };
    let ts: Vec<u64> = select_entries(&q, rows()).iter().map(|e| e.timestamp).collect();
    assert_eq!(ts, vec![50, 30]);
}

#[test]
fn entry_outcome_prefers_deny_then_rewrite_then_messages() {
    let ctx = HookContext {
        event: Some(HookEvent::PreToolUse),
        tool_name: Some("Bash".into()),
        target: Some("x".into()),
        exit_code: Some(2),
        raw_json: None,
    };
    let mut r = PipelineResult { deny: None, rewrite: None, messages: vec!["m".into(), "n".into()], matched_rules: vec![] };
    let e = entry_from_pipeline_at(&ctx, &r, vec!["l".into()], 7);
    assert_eq!(e.timestamp, 7);
    assert_eq!(e.event, "PreToolUse");
    assert_eq!(e.outcome, Outcome::Notify { count: 2 });
    assert_eq!(e.exit_code, Some(2));
    r.rewrite = Some("y".into());
    assert_eq!(entry_from_pipeline_at(&ctx, &r, vec![], 7).outcome, Outcome::Rewrite { to: "y".into() });
    r.deny = Some("no".into());
    assert_eq!(entry_from_pipeline(&ctx, &r, vec![]).outcome, Outcome::Deny { message: "no".into() });
}

#[test]
fn entry_without_event_is_unknown() {
    let ctx = HookContext { event: None, tool_name: None, target: None, exit_code: None, raw_json: None };
    let r = PipelineResult { deny: None, rewrite: None, messages: vec![], matched_rules: vec![] };
    let e = entry_from_pipeline_at(&ctx, &r, vec![], 1);
    assert_eq!(e.event, "unknown");
    assert_eq!(e.outcome, Outcome::Pass);
}

fn plain(ts: u64, event: &str, outcome: Outcome) -> LogEntry {
    LogEntry {
        timestamp: ts,
        event: event.to_string(),
        tool_name: None,
        target: None,
        exit_code: None,
        matched_rules: vec![],
        outcome,
    }
}

/// Rows as the table hands them to a query: newest first.
fn newest_first(entries: Vec<LogEntry>) -> Vec<(u64, Option<LogEntry>)> {
    let mut rows: Vec<(u64, Option<LogEntry>)> = entries.into_iter().map(|e| (e.timestamp, Some(e))).collect();
    rows.sort_by(|a, b| b.0.cmp(&a.0));
    rows
}

#[test]
fn record_and_query() {
    let now = crs_core::clock::now_ns();
    let rows = newest_first(vec![entry(now, "PreToolUse", Outcome::Deny { message: "blocked".into() })]);
    let results = select_entries(&LogQuery::default(), rows);
    assert_eq!(results.len(), 1);
    assert_eq!(results[0].event, "PreToolUse");
    assert!(matches!(results[0].outcome, Outcome::Deny { .. }));
}

#[test]
fn query_filters_by_event() {
    let now = crs_core::clock::now_ns();
    let entries = ["PreToolUse", "PostToolUse", "Stop"]
        .iter()
        .enumerate()
        .map(|(i, e)| plain(now + i as u64, e, Outcome::Pass))
        .collect();
    let q = LogQuery { event: Some("Post".into()), ..Default::default() };
    let results = select_entries(&q, newest_first(entries));
    assert_eq!(results.len(), 1);
    assert_eq!(results[0].event, "PostToolUse");
}

#[test]
fn query_filters_by_outcome() {
    let now = crs_core::clock::now_ns();
    let entries = vec![
        plain(now, "PreToolUse", Outcome::Pass),
        LogEntry { matched_rules: vec!["rule1".into()], ..plain(now + 1, "PreToolUse", Outcome::Deny { message: "no".into() }) },
    ];
    let q = LogQuery { outcome_kind: Some("deny".into()), ..Default::default() };
    assert_eq!(select_entries(&q, newest_first(entries)).len(), 1);
}

#[test]
fn prune_removes_old_entries() {
    let old = 1_000_000u64;
    let recent = crs_core::clock::now_ns();
    let keys = vec![old, recent];
    let removed = crs_core::log::keys_to_prune(&keys, recent - 1);
    assert_eq!(removed, vec![old]);
    assert_eq!(keys.len() - removed.len(), 1);
}
