use crs_core::chain::{resolve_post, resolve_pre, PostHookOutcome, PreHookOutcome};

#[test]
fn empty_pre_chain_allows() {
    assert_eq!(resolve_pre(vec![]), PreHookOutcome::Allow);
}

#[test]
fn deny_short_circuits_remaining_hooks() {
    let r = resolve_pre(vec![
        PreHookOutcome::Allow,
        PreHookOutcome::Deny("first".into()),
        PreHookOutcome::Rewrite { command: "x".into(), reason: "r".into() },
    ]);
    assert_eq!(r, PreHookOutcome::Deny("first".into()));
}

#[test]
fn rewrite_short_circuits_remaining_hooks() {
    let r = resolve_pre(vec![
        PreHookOutcome::Rewrite { command: "x".into(), reason: "r".into() },
        PreHookOutcome::Deny("later".into()),
    ]);
    assert_eq!(r, PreHookOutcome::Rewrite { command: "x".into(), reason: "r".into() });
}

#[test]
fn empty_post_chain_allows() {
    assert_eq!(resolve_post(vec![]), PostHookOutcome::Allow);
}

#[test]
fn last_filter_post_hook_wins() {
    let r = resolve_post(vec![
        PostHookOutcome::Filter("a".into()),
        PostHookOutcome::Filter("b".into()),
        PostHookOutcome::Allow,
    ]);
    assert_eq!(r, PostHookOutcome::Filter("b".into()));
}

#[test]
fn single_allow_pre_hook() {
    assert_eq!(resolve_pre(vec![PreHookOutcome::Allow]), PreHookOutcome::Allow);
}

#[test]
fn allow_before_deny_still_denies() {
    let r = resolve_pre(vec![PreHookOutcome::Allow, PreHookOutcome::Deny("second hook denies".into())]);
    assert_eq!(r, PreHookOutcome::Deny("second hook denies".into()));
}

#[test]
fn filter_post_hook_wins_over_allow() {
    let r = resolve_post(vec![PostHookOutcome::Allow, PostHookOutcome::Filter("filtered".into())]);
    assert_eq!(r, PostHookOutcome::Filter("filtered".into()));
}

#[test]
fn full_chain_composition() {
    let pre = resolve_pre(vec![
        PreHookOutcome::Allow,
        PreHookOutcome::Allow,
        PreHookOutcome::Deny("composition test deny".into()),
    ]);
    assert_eq!(pre, PreHookOutcome::Deny("composition test deny".into()));
    let post = resolve_post(vec![PostHookOutcome::Allow, PostHookOutcome::Filter("composition filter".into())]);
    assert_eq!(post, PostHookOutcome::Filter("composition filter".into()));
}
