//! Domain types and the rewrite interface of the RTK command proxy.
use vstd::prelude::*;

verus! {

/// A command RTK has no equivalent for.
#[derive(Debug, Clone, Default)]
pub struct RtkUnsupportedEntry {
    pub base_command: String,
    pub count: u64,
    pub example: String,
}

/// Whether RTK's hook is installed and its self-test passes.
#[derive(Debug, Clone, Copy, Default)]
pub struct RtkVerifyResult {
    pub hook_installed: bool,
    pub tests_passed: u32,
    pub tests_total: u32,
}

/// The rewrites RTK's hook made.
#[derive(Debug, Clone, Default)]
pub struct RtkHookAudit {
    pub rewrites: Vec<RtkAuditEntry>,
}

/// One rewrite made by RTK's hook.
#[derive(Debug, Clone, Default)]
pub struct RtkAuditEntry {
    pub original: String,
    pub rewritten: String,
    pub tokens_saved: u64,
}

/// What RTK would do with a command.
#[derive(Debug, Clone, Default)]
pub struct RtkProbeResult {
    pub original: String,
    pub rewritten: Option<String>,
    pub supported: bool,
    pub rtk_equivalent: Option<String>,
}

/// Intercept capabilities: rewriting, probing, proxy listing.
pub trait RtkRewrite {
    fn rewrite(&self, command: &str) -> Option<String>;
    fn probe(&self, command: &str) -> Option<RtkProbeResult>;
    fn check(&self, command: &str) -> bool;
    fn list_proxies(&self) -> Vec<String>;
    fn flush(&self) -> bool;
}

/// The client used when RTK is not installed: every call is a no-op.
pub struct NullRtkClient;

impl RtkRewrite for NullRtkClient {
    fn rewrite(&self, command: &str) -> (r: Option<String>)
        ensures
            r is None,
    {
        None
    }

    fn probe(&self, command: &str) -> (r: Option<RtkProbeResult>)
        ensures
            r is None,
    {
        None
    }

    fn check(&self, command: &str) -> (r: bool)
        ensures
            !r,
    {
        false
    }

    fn list_proxies(&self) -> (r: Vec<String>)
        ensures
            r@.len() == 0,
    {
        Vec::new()
    }

    fn flush(&self) -> (r: bool)
        ensures
            !r,
    {
        false
    }
}

} // verus!
