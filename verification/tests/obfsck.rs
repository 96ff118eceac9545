use crs_core::obfsck::{AuditHit, FilterSuggestion, NullObfsckMcpClient, ObfsckMcp};

struct FakeObfsckMcpClient {
    audit_hits: Vec<AuditHit>,
    filter_suggestions: Vec<FilterSuggestion>,
}

impl ObfsckMcp for FakeObfsckMcpClient {
    fn audit(&self, _text: &str) -> Vec<AuditHit> {
        self.audit_hits.clone()
    }

    fn generate_filters(&self, _examples: &[String]) -> Vec<FilterSuggestion> {
        self.filter_suggestions.clone()
    }
}

#[test]
fn null_client_returns_empty() {
    let c = NullObfsckMcpClient;
    assert!(c.audit("sk-abc123").is_empty());
    assert!(c.generate_filters(&["sk-abc123".to_string()]).is_empty());
}

#[test]
fn fake_client_returns_injected_data() {
    let c = FakeObfsckMcpClient {
        audit_hits: vec![AuditHit {
            label: "api-key".into(),
            count: 2,
        }],
        filter_suggestions: vec![FilterSuggestion {
            pattern: r"sk-[A-Za-z0-9]{32}".into(),
            label: "api-key".into(),
        }],
    };
    let hits = c.audit("sk-abc123");
    assert_eq!(hits.len(), 1);
    assert_eq!(hits[0].label, "api-key");
    assert_eq!(hits[0].count, 2);

    let suggs = c.generate_filters(&["sk-abc123".to_string()]);
    assert_eq!(suggs.len(), 1);
    assert_eq!(suggs[0].label, "api-key");
}
