
use crs_core::capture::{CaptureStore, InMemoryCaptureStore, SuggestionRecord};

// ---------------------------------------------------------------------------
// Shared fixture helpers
// ---------------------------------------------------------------------------

fn make_record(original: &str, suggestion: &str, session: &str) -> SuggestionRecord {
    SuggestionRecord::new(
        original,
        suggestion,
        "no-grep-use-tool",
        "/tmp/conformance",
        Some(session.to_string()),
        "Bash",
    )
}

// ---------------------------------------------------------------------------
// Contract: mark_accepted semantics (observable through trait alone)
//
// 3. mark_accepted() with matching session_id + suggestion sets accepted=true
// 4. mark_accepted() with wrong session_id does not mutate
// 5. mark_accepted() with wrong command does not mutate
// 6. once accepted=true, a second mark_accepted() is idempotent (stays true)
// ---------------------------------------------------------------------------

fn assert_mark_accepted_contract(store: &mut InMemoryCaptureStore) {
    // -----------------------------------------------------------------------
    // 3. Correct session + suggestion → accepted
    // -----------------------------------------------------------------------
    store.record(make_record("grep a .", "rg a .", "sess-A"));
    store.mark_accepted("sess-A", "rg a .", 0);
    let recs = store.records();
    assert_eq!(recs.len(), 1, "contract 3: expected 1 record");
    assert!(recs[0].accepted, "contract 3: record should be accepted");
    assert_eq!(recs[0].exit_code, Some(0), "contract 3: exit_code stored");
    assert!(
        recs[0].accepted_ts.is_some(),
        "contract 3: accepted_ts populated"
    );

    // -----------------------------------------------------------------------
    // 4. Wrong session_id → no mutation (use a fresh unaccepted record)
    // -----------------------------------------------------------------------
    store.record(make_record("find . -name x", "fd x", "sess-B"));
    store.mark_accepted("sess-WRONG", "fd x", 0);
    let recs = store.records();
    let fd_rec = recs
        .iter()
        .find(|r| r.original == "find . -name x")
        .expect("contract 4: record must exist");
    assert!(
        !fd_rec.accepted,
        "contract 4: wrong session must not set accepted"
    );

    // -----------------------------------------------------------------------
    // 5. Wrong command → no mutation
    // -----------------------------------------------------------------------
    store.record(make_record("cat file.txt", "bat file.txt", "sess-C"));
    store.mark_accepted("sess-C", "totally-wrong-command", 0);
    let recs = store.records();
    let cat_rec = recs
        .iter()
        .find(|r| r.original == "cat file.txt")
        .expect("contract 5: record must exist");
    assert!(
        !cat_rec.accepted,
        "contract 5: wrong command must not set accepted"
    );

    // -----------------------------------------------------------------------
    // 6. Already accepted → second mark_accepted stays true (idempotent)
    // -----------------------------------------------------------------------
    // Record from contract 3 is already accepted. Call mark_accepted again.
    store.mark_accepted("sess-A", "rg a .", 99);
    let recs = store.records();
    let rg_rec = recs
        .iter()
        .find(|r| r.original == "grep a .")
        .expect("contract 6: record must exist");
    assert!(
        rg_rec.accepted,
        "contract 6: accepted must remain true after second call"
    );
    // exit_code should not have been overwritten to 99 (already accepted, skipped)
    assert_eq!(
        rg_rec.exit_code,
        Some(0),
        "contract 6: exit_code not overwritten on already-accepted record"
    );
}

// ---------------------------------------------------------------------------
// Test functions
// ---------------------------------------------------------------------------

#[test]
fn in_memory_store_satisfies_contract() {
    let mut store = InMemoryCaptureStore::new();
    assert_mark_accepted_contract(&mut store);
}
