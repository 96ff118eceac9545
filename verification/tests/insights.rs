use crs_core::insights::{aggregate, enrich, git_context, repo_name_from_cwd, EnrichedFacet, FacetRecord, GitContext};

fn make_facet(session_id: &str, outcome: &str, helpfulness: &str) -> FacetRecord {
    FacetRecord {
        session_id: session_id.to_string(),
        underlying_goal: None,
        goal_categories: Vec::new(),
        outcome: Some(outcome.to_string()),
        user_satisfaction_counts: Vec::new(),
        claude_helpfulness: Some(helpfulness.to_string()),
        session_type: Some("single_task".to_string()),
        friction_counts: Vec::new(),
        friction_detail: None,
        primary_success: None,
        brief_summary: None,
    }
}

fn count(c: &[(String, u64)], k: &str) -> u64 {
    c.iter().find(|(n, _)| n == k).map(|(_, v)| *v).expect("key present")
}

#[test]
fn aggregate_counts_outcomes() {
    let facets = vec![
        EnrichedFacet { facet: make_facet("a", "fully_achieved", "very_helpful"), git: None },
        EnrichedFacet { facet: make_facet("b", "fully_achieved", "moderately_helpful"), git: None },
        EnrichedFacet { facet: make_facet("c", "partially_achieved", "very_helpful"), git: None },
    ];
    let report = aggregate(&facets);
    assert_eq!(report.total, 3);
    assert_eq!(count(&report.outcomes, "fully_achieved"), 2);
    assert_eq!(count(&report.outcomes, "partially_achieved"), 1);
}

#[test]
fn aggregate_counts_friction() {
    let mut f = make_facet("x", "fully_achieved", "very_helpful");
    f.friction_counts.push(("wrong_approach".to_string(), 3));
    f.friction_counts.push(("buggy_code".to_string(), 1));
    let mut f2 = make_facet("y", "fully_achieved", "very_helpful");
    f2.friction_counts.push(("wrong_approach".to_string(), 2));
    let facets = vec![EnrichedFacet { facet: f, git: None }, EnrichedFacet { facet: f2, git: None }];
    let report = aggregate(&facets);
    assert_eq!(count(&report.friction, "wrong_approach"), 5);
    assert_eq!(count(&report.friction, "buggy_code"), 1);
}

#[test]
fn aggregate_counts_git_enriched() {
    let git = GitContext {
        repo: "minibox".to_string(),
        cwd: "/Users/joe/dev/minibox".to_string(),
        branch: Some("main".to_string()),
        timestamp: None,
    };
    let facets = vec![
        EnrichedFacet { facet: make_facet("a", "fully_achieved", "very_helpful"), git: Some(git) },
        EnrichedFacet { facet: make_facet("b", "fully_achieved", "very_helpful"), git: None },
    ];
    let report = aggregate(&facets);
    assert_eq!(report.git_enriched, 1);
    assert_eq!(report.top_repos[0], ("minibox".to_string(), 1));
}

#[test]
fn repo_name_from_cwd_extracts_last_component() {
    assert_eq!(repo_name_from_cwd("/Users/joe/dev/minibox"), "minibox");
    assert_eq!(repo_name_from_cwd("/Users/joe/dev/orca-strait"), "orca-strait");
}

#[test]
fn repo_name_of_root_is_the_path() {
    assert_eq!(repo_name_from_cwd("/"), "/");
}

#[test]
fn top_repos_are_most_frequent_first_and_capped() {
    let mut facets = Vec::new();
    for i in 0..12 {
        for _ in 0..=i {
            facets.push(EnrichedFacet {
                facet: make_facet("s", "ok", "h"),
                git: Some(git_context(Some(format!("/dev/r{i}")), Some("main".to_string()), None)),
            });
        }
    }
    let report = aggregate(&facets);
    assert_eq!(report.top_repos.len(), 10);
    assert_eq!(report.top_repos[0], ("r11".to_string(), 12));
    assert_eq!(report.top_repos[9], ("r2".to_string(), 3));
    assert_eq!(report.top_branches, vec![("main".to_string(), 78)]);
}

#[test]
fn enrich_attaches_known_context() {
    let contexts = vec![("b".to_string(), git_context(Some("/x/proj".to_string()), None, Some("t".to_string())))];
    let out = enrich(vec![make_facet("a", "o", "h"), make_facet("b", "o", "h")], &contexts);
    assert!(out[0].git.is_none());
    let g = out[1].git.as_ref().unwrap();
    assert_eq!(g.repo, "proj");
    assert_eq!(g.cwd, "/x/proj");
}
