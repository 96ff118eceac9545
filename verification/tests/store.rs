use crs_core::state::{command_key, FailureEntry, State};
use crs_core::store::{InMemoryStateStore, StateStore};

#[test]
fn in_memory_store_roundtrip() {
    let mut store = InMemoryStateStore::new();
    let mut state = store.load();
    assert!(state.failures.is_empty());
    state.insert("key".to_string(), FailureEntry { command_preview: "echo hi".to_string(), timestamps: vec![1], last_seen: 1 });
    store.save(&state);
    let loaded = store.load();
    assert_eq!(loaded.failures.len(), 1);
    assert!(loaded.contains_key("key"));
}

#[test]
fn in_memory_state_store_satisfies_contract() {
    let mut st = State::new();
    st.insert(command_key("ls"), FailureEntry { command_preview: "ls".into(), timestamps: vec![5, 6], last_seen: 6 });
    let store = InMemoryStateStore::with_state(st);
    let a = store.load();
    let b = store.get_state();
    assert_eq!(a.failures.len(), 1);
    assert_eq!(b.failures[0].1.timestamps, vec![5, 6]);
}
