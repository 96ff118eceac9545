//! Outcomes of the hook interfaces, and how a chain of hooks combines them:
//! before a tool runs the first `Deny` or `Rewrite` wins; after it runs the
//! last non-`Allow` outcome wins.
use vstd::prelude::*;

verus! {

/// What a pre-hook decides about a tool call.
#[derive(Debug, Clone, PartialEq, Eq)]
pub enum PreHookOutcome {
    /// Let the call proceed unchanged.
    Allow,
    /// Block the call with a reason.
    Deny(String),
    /// Let the call proceed with another command.
    Rewrite { command: String, reason: String },
}

/// The output of a tool call.
#[derive(Debug, Clone)]
pub struct ToolOutput {
    /// Combined output text (may be empty).
    pub text: String,
    /// Exit code of the underlying process (0: success).
    pub exit_code: i64,
}

/// What a post-hook does with a tool's output.
#[derive(Debug, Clone, PartialEq, Eq)]
pub enum PostHookOutcome {
    /// Pass the output through unchanged.
    Allow,
    /// Replace the output (empty: suppress it).
    Filter(String),
}

/// The first outcome that is not `Allow`, or `Allow`.
pub open spec fn first_decisive(outcomes: Seq<PreHookOutcome>) -> PreHookOutcome
    decreases outcomes.len(),
{
    if outcomes.len() == 0 {
        PreHookOutcome::Allow
    } else if outcomes[0] is Allow {
        first_decisive(outcomes.drop_first())
    } else {
        outcomes[0]
    }
}

/// The last outcome that is not `Allow`, or `Allow`.
pub open spec fn last_filter(outcomes: Seq<PostHookOutcome>) -> PostHookOutcome
    decreases outcomes.len(),
{
    if outcomes.len() == 0 {
        PostHookOutcome::Allow
    } else if outcomes.last() is Allow {
        last_filter(outcomes.drop_last())
    } else {
        outcomes.last()
    }
}

/// Combine pre-hook outcomes in chain order: the first `Deny` or `Rewrite`.
#[verifier::loop_isolation(false)]
pub fn resolve_pre(outcomes: Vec<PreHookOutcome>) -> (r: PreHookOutcome)
    ensures
        r == first_decisive(outcomes@),
{
    let mut rest = outcomes;
    let ghost orig = rest@;
    let ghost mut k: int = 0;
    proof { assert(orig.skip(0) == orig); }
    while rest.len() > 0
        invariant
            0 <= k <= orig.len(),
            rest@ == orig.skip(k),
            first_decisive(orig) == first_decisive(orig.skip(k)),
        decreases rest.len(),
    {
        let o = rest.remove(0);
        proof {
            assert(o == orig.skip(k)[0]);
            assert(orig.skip(k).drop_first() =~= orig.skip(k + 1));
        }
        match o {
            PreHookOutcome::Allow => {},
            _ => {
                return o;
            },
        }
        proof {
            k = k + 1;
            assert(rest@ =~= orig.skip(k));
        }
    }
    PreHookOutcome::Allow
}

/// Combine post-hook outcomes in chain order: the last that is not `Allow`.
#[verifier::loop_isolation(false)]
pub fn resolve_post(outcomes: Vec<PostHookOutcome>) -> (r: PostHookOutcome)
    ensures
        r == last_filter(outcomes@),
{
    let mut rest = outcomes;
    let ghost orig = rest@;
    while rest.len() > 0
        invariant
            orig.len() >= rest@.len(),
            rest@ == orig.take(rest@.len() as int),
            last_filter(orig) == last_filter(rest@),
        decreases rest.len(),
    {
        let ghost before = rest@;
        let o = rest.pop().unwrap();
        proof {
            assert(before.drop_last() == rest@);
            assert(before.last() == o);
        }
        match o {
            PostHookOutcome::Allow => {},
            _ => {
                return o;
            },
        }
        proof { assert(rest@ == orig.take(rest@.len() as int)); }
    }
    PostHookOutcome::Allow
}


/// Before a tool runs, the first `Deny` or `Rewrite` wins: whatever the hooks
/// after it answer, the chain's outcome is that one.
pub proof fn lemma_first_decisive_wins(allows: Seq<PreHookOutcome>, x: PreHookOutcome, rest: Seq<PreHookOutcome>)
    requires
        forall|k: int| 0 <= k < allows.len() ==> #[trigger] allows[k] is Allow,
        !(x is Allow),
    ensures
        first_decisive(allows + seq![x] + rest) == x,
    decreases allows.len(),
{
    let all = allows + seq![x] + rest;
    if allows.len() == 0 {
        assert(all[0] == x);
    } else {
        assert(all[0] == allows[0]);
        assert(all.drop_first() == allows.drop_first() + seq![x] + rest);
        lemma_first_decisive_wins(allows.drop_first(), x, rest);
    }
}

/// After a tool runs, the last non-`Allow` outcome wins: hooks that allow
/// after it change nothing.
pub proof fn lemma_last_filter_wins(before: Seq<PostHookOutcome>, x: PostHookOutcome, allows: Seq<PostHookOutcome>)
    requires
        forall|k: int| 0 <= k < allows.len() ==> #[trigger] allows[k] is Allow,
        !(x is Allow),
    ensures
        last_filter(before + seq![x] + allows) == x,
    decreases allows.len(),
{
    let all = before + seq![x] + allows;
    if allows.len() == 0 {
        assert(all.last() == x);
    } else {
        assert(all.last() == allows.last());
        assert(all.drop_last() == before + seq![x] + allows.drop_last());
        lemma_last_filter_wins(before, x, allows.drop_last());
    }
}

} // verus!
