use crs_core::capture::{CaptureStore, DedupeKey, InMemoryCaptureStore, SuggestionRecord, SuggestionStore};

fn rec(original: &str, suggestion: &str) -> SuggestionRecord {
    SuggestionRecord::new(original, suggestion, "no-grep-use-tool", "/Users/joe/dev/coursers", Some("sess-1".to_string()), "Bash")
}

fn store() -> SuggestionStore {
    SuggestionStore::new(std::path::PathBuf::from("/nonexistent/suggestions.jsonl"))
}

#[test]
fn in_memory_store_record_increments_count() {
    let mut store = InMemoryCaptureStore::new();
    let r = SuggestionRecord::new(
        "grep foo .",
        "rg foo .",
        "no-grep-use-tool",
        "/Users/joe/dev/coursers",
        Some("sess-1".to_string()),
        "Bash",
    );
    store.record(r.clone());
    store.record(r);
    assert_eq!(store.records().len(), 2);
}

#[test]
fn record_new_appends() {
    let s = store();
    let mut records = Vec::new();
    let rewrite = s.record(&mut records, rec("grep foo .", "rg foo ."));
    assert!(!rewrite);
    assert_eq!(records.len(), 1);
    assert_eq!(records[0].original, "grep foo .");
    assert_eq!(records[0].count, 1);
}

#[test]
fn record_duplicate_increments_count() {
    let s = store();
    let mut records = Vec::new();
    s.record(&mut records, rec("grep foo .", "rg foo ."));
    let rewrite = s.record(&mut records, rec("grep foo .", "rg foo ."));
    assert!(rewrite);
    assert_eq!(records.len(), 1);
    assert_eq!(records[0].count, 2);
}

#[test]
fn record_different_suggestions_are_separate() {
    let s = store();
    let mut records = Vec::new();
    s.record(&mut records, rec("grep foo .", "rg foo ."));
    s.record(&mut records, rec("grep foo .", "Grep(pattern='foo')"));
    assert_eq!(records.len(), 2);
}

#[test]
fn mark_accepted_updates_record() {
    let s = store();
    let mut records = Vec::new();
    s.record(&mut records, rec("grep foo .", "rg foo ."));
    let changed = s.mark_accepted(&mut records, "sess-1", "rg foo .", 0, "2024-03-15T00:00:00Z");
    assert!(changed);
    assert!(records[0].accepted);
    assert_eq!(records[0].exit_code, Some(0));
    assert!(records[0].accepted_ts.is_some());
}

#[test]
fn mark_accepted_wrong_session_no_change() {
    let s = store();
    let mut records = Vec::new();
    s.record(&mut records, rec("grep foo .", "rg foo ."));
    let changed = s.mark_accepted(&mut records, "other-session", "rg foo .", 0, "2024-03-15T00:00:00Z");
    assert!(!changed);
    assert!(!records[0].accepted);
}

#[test]
fn mark_accepted_wrong_command_no_change() {
    let s = store();
    let mut records = Vec::new();
    s.record(&mut records, rec("grep foo .", "rg foo ."));
    s.mark_accepted(&mut records, "sess-1", "fd foo .", 0, "2024-03-15T00:00:00Z");
    assert!(!records[0].accepted);
}

#[test]
fn repo_derived_from_cwd() {
    let r = rec("grep foo .", "rg foo .");
    assert_eq!(r.repo.as_deref(), Some("coursers"));
}

#[test]
fn record_at_fixed_time_is_stamped() {
    let r = SuggestionRecord::new_at("grep x", "rg x", "id", "/a/b", None, "Bash", 1_710_460_800 + 3661);
    assert_eq!(r.ts, "2024-03-15T01:01:01Z");
    assert_eq!(r.count, 1);
    assert!(!r.accepted);
}

#[test]
fn dedupe_key_trims_both_parts() {
    let k = DedupeKey::from_parts("  grep foo . ", "\trg foo .\n");
    assert_eq!(k.original, "grep foo .");
    assert_eq!(k.suggestion, "rg foo .");
    let r = rec(" grep foo .", "rg foo . ");
    assert_eq!(DedupeKey::from_record(&r), k);
}

#[test]
fn duplicate_upgrades_acceptance() {
    let s = store();
    let mut records = Vec::new();
    s.record(&mut records, rec("grep foo .", "rg foo ."));
    let mut accepted = rec("grep foo .", "rg foo .");
    accepted.accepted = true;
    accepted.exit_code = Some(0);
    accepted.accepted_ts = Some("t".to_string());
    s.record(&mut records, accepted);
    assert!(records[0].accepted);
    assert_eq!(records[0].exit_code, Some(0));
    assert_eq!(records[0].count, 2);
}

#[test]
fn in_memory_mark_accepted_matches_trimmed_suggestion() {
    let mut store = InMemoryCaptureStore::new();
    store.record(rec("grep foo .", "rg foo ."));
    store.mark_accepted("sess-1", "  rg foo .  ", 3);
    let records = store.records();
    assert!(records[0].accepted);
    assert_eq!(records[0].exit_code, Some(3));
}

#[test]
fn same_key_index_finds_first_matching_pair() {
    use_same_key_index();
}

fn use_same_key_index() {
    let a = crs_core::capture::SuggestionRecord::new_at("grep x", "use Grep", "r", "/p", None, "Bash", 0);
    let b = crs_core::capture::SuggestionRecord::new_at("ls", "use Glob", "r", "/p", None, "Bash", 0);
    let c = crs_core::capture::SuggestionRecord::new_at(" grep x ", "use Grep ", "r2", "/q", None, "Bash", 5);
    let records = vec![b.clone(), a.clone()];
    assert_eq!(crs_core::capture::same_key_index(&records, &c), Some(1));
    assert_eq!(crs_core::capture::same_key_index(&[b].to_vec(), &a), None);
}
