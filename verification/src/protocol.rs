//! The decisions behind the harness protocol's responses; the JSON itself is
//! written by the application.
use vstd::prelude::*;
use crate::config::HookProtocol;
use crate::text::{owned, push_str};

verus! {

/// The exit code that goes with a deny: 2 for the default protocol, 0 for
/// the one that reads the decision from the JSON alone.
pub fn deny_exit_code(proto: HookProtocol) -> (c: i32)
    ensures
        c == (match proto {
            HookProtocol::Claude => 2i32,
            HookProtocol::Codex => 0i32,
        }),
{
    match proto {
        HookProtocol::Claude => 2,
        HookProtocol::Codex => 0,
    }
}

/// A tool's output text from its two fields: standard output first, then
/// `output`; none when both are empty.
pub fn combined_output(stdout: &str, output: &str) -> (r: Option<String>)
    ensures
        match r {
            Some(t) => t@ == stdout@ + output@ && t@.len() > 0,
            None => stdout@.len() == 0 && output@.len() == 0,
        },
{
    let mut t = owned(stdout);
    push_str(&mut t, output);
    if t.as_str().is_empty() {
        None
    } else {
        Some(t)
    }
}

} // verus!
