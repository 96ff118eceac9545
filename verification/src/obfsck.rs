//! Domain types and the interface of the obfsck MCP server: auditing text for secret
//! patterns, and suggesting filter patterns from examples.
use vstd::prelude::*;

verus! {

/// How often a secret pattern was hit.
#[derive(Debug, Clone, PartialEq, Eq)]
pub struct AuditHit {
    pub label: String,
    pub count: usize,
}

/// A suggested redaction pattern.
#[derive(Debug, Clone)]
pub struct FilterSuggestion {
    pub pattern: String,
    pub label: String,
}

/// Interface to the obfsck MCP server.
pub trait ObfsckMcp {
    /// Audit `text` for secret patterns; hit counts per label.
    fn audit(&self, text: &str) -> Vec<AuditHit>;

    /// Suggest filter patterns for strings that should be redacted.
    fn generate_filters(&self, examples: &[String]) -> Vec<FilterSuggestion>;
}

/// The client used when the server is not available: finds and suggests nothing.
pub struct NullObfsckMcpClient;

impl ObfsckMcp for NullObfsckMcpClient {
    fn audit(&self, text: &str) -> (r: Vec<AuditHit>)
        ensures
            r@.len() == 0,
    {
        Vec::new()
    }

    fn generate_filters(&self, examples: &[String]) -> (r: Vec<FilterSuggestion>)
        ensures
            r@.len() == 0,
    {
        Vec::new()
    }
}

} // verus!
