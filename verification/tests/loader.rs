use crs_core::loader::{InMemoryRulesLoader, RulesLoader};
use crs_core::rules::{FailureLearning, Rule, RulesConfig};

#[test]
fn in_memory_loader_returns_its_config() {
    let rule = Rule {
        id: "test-rule".to_string(),
        enabled: true,
        pattern: r"\bgrep\b".to_string(),
        pattern_flags: String::new(),
        exceptions: vec![],
        target_commands: vec![],
        message: Some("Use Grep tool".to_string()),
    };
    let config = RulesConfig { rules: vec![rule], failure_learning: FailureLearning::default() };
    let loader = InMemoryRulesLoader(config.clone());
    let loaded = loader.load();
    assert_eq!(loaded.rules.len(), 1);
    assert_eq!(loaded.rules[0].id, "test-rule");
    assert_eq!(loaded.rules[0].pattern, r"\bgrep\b");
}

#[test]
fn in_memory_loader_empty_config() {
    let config = RulesConfig { rules: vec![], failure_learning: FailureLearning::default() };
    let loader = InMemoryRulesLoader(config);
    let loaded = loader.load();
    assert!(loaded.rules.is_empty());
}
