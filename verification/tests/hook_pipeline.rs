use crs_core::expand::Environment;
use crs_core::hooks::{
    branch_slug, expand_template, lint_config, matches_tool, resume_pipeline, run_pipeline, validate_config,
    DiagLevel, HookAction, HookContext, HookEnv, HookEvent, HookPipelineConfig, HookRule, PipelineResult, PipelineStep,
    When,
};

fn rule(event: HookEvent, action: HookAction) -> HookRule {
    HookRule { event, matcher: None, pattern: None, unless: None, when: When::Always, action, label: None }
}

fn ctx(event: HookEvent, target: &str) -> HookContext {
    HookContext {
        event: Some(event),
        tool_name: Some("Bash".into()),
        target: Some(target.into()),
        exit_code: Some(0),
        raw_json: None,
    }
}

fn no_env() -> HookEnv {
    HookEnv { vars: Environment { vars: vec![] }, branch_slug: None }
}

/// Runs the pipeline to the end, answering every side-effect command with `output`.
fn run_all(config: &HookPipelineConfig, c: &HookContext, env: &HookEnv, output: Option<&str>) -> PipelineResult {
    let mut step = run_pipeline(config, c, env);
    loop {
        match step {
            PipelineStep::Finished(r) => return r,
            PipelineStep::RunCommand { cursor, .. } => {
                step = resume_pipeline(config, c, env, cursor, output.map(|s| s.to_string()));
            }
        }
    }
}

fn run(config: &HookPipelineConfig, c: &HookContext) -> PipelineResult {
    run_all(config, c, &no_env(), None)
}

#[test]
fn deny_stops_pipeline() {
    let config = HookPipelineConfig {
        hooks: vec![
            rule(HookEvent::PreToolUse, HookAction::Deny { message: "blocked".into() }),
            rule(HookEvent::PreToolUse, HookAction::Notify { template: "should not reach".into() }),
        ],
    };
    let result = run(&config, &ctx(HookEvent::PreToolUse, "git push --force"));
    assert_eq!(result.deny.as_deref(), Some("blocked"));
    assert!(result.messages.is_empty());
}

#[test]
fn pattern_filters_correctly() {
    let config = HookPipelineConfig {
        hooks: vec![HookRule {
            pattern: Some(r"git\s+push.+--force".into()),
            ..rule(HookEvent::PreToolUse, HookAction::Deny { message: "no force push".into() })
        }],
    };
    let r = run(&config, &ctx(HookEvent::PreToolUse, "git push origin --force"));
    assert!(r.deny.is_some());
    let r = run(&config, &ctx(HookEvent::PreToolUse, "git push origin main"));
    assert!(r.deny.is_none());
}

#[test]
fn unless_skips_rule() {
    let config = HookPipelineConfig {
        hooks: vec![HookRule {
            pattern: Some(r"doob todo add".into()),
            unless: Some("--tags".into()),
            ..rule(HookEvent::PreToolUse, HookAction::Notify { template: "missing tags".into() })
        }],
    };
    let r = run(&config, &ctx(HookEvent::PreToolUse, "doob todo add --tags foo"));
    assert!(r.messages.is_empty());
    let r = run(&config, &ctx(HookEvent::PreToolUse, "doob todo add fix bug"));
    assert_eq!(r.messages.len(), 1);
}

#[test]
fn when_on_success_filters_by_exit_code() {
    let config = HookPipelineConfig {
        hooks: vec![HookRule {
            when: When::OnSuccess,
            ..rule(HookEvent::PostToolUse, HookAction::Notify { template: "success".into() })
        }],
    };
    let mut c = ctx(HookEvent::PostToolUse, "cargo test");
    c.exit_code = Some(0);
    assert_eq!(run(&config, &c).messages.len(), 1);
    c.exit_code = Some(1);
    assert!(run(&config, &c).messages.is_empty());
}

#[test]
fn matcher_filters_tool_name() {
    let config = HookPipelineConfig {
        hooks: vec![HookRule {
            matcher: Some("Edit|Write".into()),
            ..rule(HookEvent::PreToolUse, HookAction::Deny { message: "blocked".into() })
        }],
    };
    let mut c = ctx(HookEvent::PreToolUse, "some/file.rs");
    c.tool_name = Some("Edit".into());
    assert!(run(&config, &c).deny.is_some());
    c.tool_name = Some("Bash".into());
    assert!(run(&config, &c).deny.is_none());
}

#[test]
fn rewrite_prepend() {
    let config = HookPipelineConfig {
        hooks: vec![HookRule {
            pattern: Some(r"cargo nextest".into()),
            ..rule(
                HookEvent::PreToolUse,
                HookAction::Rewrite { inject: None, prepend: Some("_DEVLOOP_OP_WRAPPED=1".into()), replace: None },
            )
        }],
    };
    let r = run(&config, &ctx(HookEvent::PreToolUse, "cargo nextest run --workspace"));
    assert_eq!(r.rewrite.as_deref(), Some("_DEVLOOP_OP_WRAPPED=1 cargo nextest run --workspace"));
}

#[test]
fn event_mismatch_skips_rule() {
    let config = HookPipelineConfig {
        hooks: vec![rule(HookEvent::SessionStart, HookAction::Notify { template: "hello".into() })],
    };
    let r = run(&config, &ctx(HookEvent::PreToolUse, "anything"));
    assert!(r.messages.is_empty());
}

#[test]
fn empty_config_returns_default() {
    let config = HookPipelineConfig::default();
    let r = run(&config, &ctx(HookEvent::PreToolUse, "anything"));
    assert!(r.deny.is_none());
    assert!(r.rewrite.is_none());
    assert!(r.messages.is_empty());
}

#[test]
fn matches_tool_works() {
    assert!(matches_tool("*", "Bash"));
    assert!(matches_tool("Bash", "Bash"));
    assert!(matches_tool("Edit|Write", "Edit"));
    assert!(matches_tool("Edit|Write", "Write"));
    assert!(!matches_tool("Edit|Write", "Bash"));
    assert!(!matches_tool("Bash", "Edit"));
}

#[test]
fn config_merge() {
    let mut a = HookPipelineConfig { hooks: vec![rule(HookEvent::PreToolUse, HookAction::Deny { message: "a".into() })] };
    let b = HookPipelineConfig { hooks: vec![rule(HookEvent::PostToolUse, HookAction::Notify { template: "b".into() })] };
    a.merge(b);
    assert_eq!(a.hooks.len(), 2);
}

#[test]
fn template_expansion() {
    let c = HookContext {
        event: Some(HookEvent::PostToolUse),
        tool_name: Some("Bash".into()),
        target: Some("cargo test".into()),
        exit_code: Some(1),
        raw_json: None,
    };
    let expanded = expand_template("Tool ${tool_name} ran '${target}' with exit ${exit_code}", &c);
    assert_eq!(expanded, "Tool Bash ran 'cargo test' with exit 1");
}

#[test]
fn template_expansion_negative_exit_code() {
    let mut c = ctx(HookEvent::PostToolUse, "x");
    c.exit_code = Some(-2);
    assert_eq!(expand_template("code=${exit_code}", &c), "code=-2");
}

#[test]
fn matches_tool_trims_pieces() {
    assert!(matches_tool("Edit | Write", "Write"));
    assert!(!matches_tool("", "Bash"));
}

#[test]
fn no_event_selects_nothing() {
    let config = HookPipelineConfig { hooks: vec![rule(HookEvent::PreToolUse, HookAction::Deny { message: "x".into() })] };
    let mut c = ctx(HookEvent::PreToolUse, "x");
    c.event = None;
    let r = run(&config, &c);
    assert!(r.deny.is_none());
    assert!(r.matched_rules.is_empty());
}

#[test]
fn labels_default_to_rule_index() {
    let config = HookPipelineConfig {
        hooks: vec![
            rule(HookEvent::PreToolUse, HookAction::Notify { template: "a".into() }),
            HookRule { label: Some("guard/b".into()), ..rule(HookEvent::PreToolUse, HookAction::Notify { template: "b".into() }) },
            rule(HookEvent::PreToolUse, HookAction::Notify { template: "c".into() }),
        ],
    };
    let r = run(&config, &ctx(HookEvent::PreToolUse, "x"));
    assert_eq!(r.matched_rules, vec!["rule-0", "guard/b", "rule-2"]);
    assert_eq!(r.messages, vec!["a", "b", "c"]);
}

#[test]
fn run_action_pauses_and_captures_output() {
    let config = HookPipelineConfig {
        hooks: vec![
            rule(HookEvent::PostToolUse, HookAction::Run { command: vec!["echo".into(), "hi".into()], capture: true }),
            rule(HookEvent::PostToolUse, HookAction::Notify { template: "after".into() }),
        ],
    };
    let c = ctx(HookEvent::PostToolUse, "x");
    match run_pipeline(&config, &c, &no_env()) {
        PipelineStep::RunCommand { command, capture, .. } => {
            assert_eq!(command, vec!["echo", "hi"]);
            assert!(capture);
        }
        PipelineStep::Finished(_) => panic!("expected a command to run"),
    }
    let r = run_all(&config, &c, &no_env(), Some("  hi\n"));
    assert_eq!(r.messages, vec!["hi", "after"]);
}

#[test]
fn run_action_without_capture_adds_no_message() {
    let config = HookPipelineConfig {
        hooks: vec![rule(HookEvent::PostToolUse, HookAction::Run { command: vec!["true".into()], capture: false })],
    };
    let r = run_all(&config, &ctx(HookEvent::PostToolUse, "x"), &no_env(), Some("output"));
    assert!(r.messages.is_empty());
    assert_eq!(r.matched_rules.len(), 1);
}

#[test]
fn rewrite_inject_expands_variables_and_slug() {
    let config = HookPipelineConfig {
        hooks: vec![rule(
            HookEvent::PreToolUse,
            HookAction::Rewrite { inject: Some("--tag ${GIT_BRANCH_SLUG} --user ${USER_NAME}${MISSING}".into()), prepend: None, replace: None },
        )],
    };
    let env = HookEnv {
        vars: Environment { vars: vec![("USER_NAME".into(), "joe".into())] },
        branch_slug: branch_slug("feature/Add_Thing/x"),
    };
    let r = run_all(&config, &ctx(HookEvent::PreToolUse, "deploy"), &env, None);
    assert_eq!(r.rewrite.as_deref(), Some("deploy --tag add-thing-x --user joe"));
}

#[test]
fn branch_slug_only_for_known_kinds() {
    assert_eq!(branch_slug("fix/a_b").as_deref(), Some("a-b"));
    assert_eq!(branch_slug("chore/X").as_deref(), Some("x"));
    assert_eq!(branch_slug("feat/y/z").as_deref(), Some("y-z"));
    assert_eq!(branch_slug("main"), None);
}

#[test]
fn rewrites_accumulate_over_rules() {
    let config = HookPipelineConfig {
        hooks: vec![
            rule(HookEvent::PreToolUse, HookAction::Rewrite { inject: None, prepend: Some("A=1".into()), replace: None }),
            rule(HookEvent::PreToolUse, HookAction::Rewrite { inject: Some("--x".into()), prepend: None, replace: None }),
        ],
    };
    let r = run(&config, &ctx(HookEvent::PreToolUse, "cmd"));
    assert_eq!(r.rewrite.as_deref(), Some("A=1 cmd --x"));
}

#[test]
fn validate_reports_bad_regexes_and_empty_run() {
    let config = HookPipelineConfig {
        hooks: vec![
            HookRule { pattern: Some("[bad".into()), unless: Some("(x".into()), ..rule(HookEvent::PreToolUse, HookAction::Notify { template: "n".into() }) },
            HookRule { label: Some("ops/run".into()), ..rule(HookEvent::PostToolUse, HookAction::Run { command: vec!["  ".into()], capture: false }) },
            rule(HookEvent::PostToolUse, HookAction::Run { command: vec!["ls".into()], capture: false }),
        ],
    };
    let d = validate_config(&config);
    assert_eq!(d.len(), 3);
    assert!(d.iter().all(|x| x.level == DiagLevel::Error));
    assert_eq!(d[0].label, "hooks[0]");
    assert_eq!(d[0].message, "invalid regex pattern: [bad");
    assert_eq!(d[1].message, "invalid unless regex: (x");
    assert_eq!(d[2].rule_index, 1);
    assert_eq!(d[2].label, "ops/run");
    assert_eq!(d[2].message, "run action has empty command");
}

#[test]
fn lint_flags_deny_without_pattern_blank_notify_and_bare_label() {
    let config = HookPipelineConfig {
        hooks: vec![
            HookRule { label: Some("nolabel".into()), ..rule(HookEvent::PreToolUse, HookAction::Deny { message: "x".into() }) },
            rule(HookEvent::PreToolUse, HookAction::Notify { template: "   ".into() }),
        ],
    };
    let d = lint_config(&config);
    assert_eq!(d.len(), 3);
    assert_eq!(d[0].level, DiagLevel::Warning);
    assert!(d[0].message.starts_with("deny-by-default"));
    assert_eq!(d[1].level, DiagLevel::Warning);
    assert!(d[1].message.starts_with("label should use namespace/name"));
    assert_eq!(d[2].level, DiagLevel::Error);
    assert_eq!(d[2].label, "hooks[1]");
    assert_eq!(d[2].message, "notify action has empty template");
}

#[test]
fn find_hooks_toml_from_root_returns_none() {
    let found = crs_core::hooks::find_hooks_toml_from("/", |p: &str| std::path::Path::new(p).exists());
    assert!(found.is_none());
}

#[test]
fn find_hooks_toml_from_reports_nearest_present() {
    let present = ["/work/.ctx/crs-hooks.toml", "/work/repo/sub/.ctx/crs-hooks.toml"];
    let found = crs_core::hooks::find_hooks_toml_from("/work/repo/sub/deeper", |p: &str| present.contains(&p));
    assert_eq!(found.as_deref(), Some("/work/repo/sub/.ctx/crs-hooks.toml"));
    let found = crs_core::hooks::find_hooks_toml_from("/work/repo", |p: &str| present.contains(&p));
    assert_eq!(found.as_deref(), Some("/work/.ctx/crs-hooks.toml"));
}

#[test]
fn rewrites_accumulate_in_order() {
    let prepend = |p: &str| HookAction::Rewrite { inject: None, prepend: Some(p.into()), replace: None };
    let config = HookPipelineConfig {
        hooks: vec![rule(HookEvent::PreToolUse, prepend("RUST_LOG=1")), rule(HookEvent::PreToolUse, prepend("time"))],
    };
    let result = run(&config, &ctx(HookEvent::PreToolUse, "cargo test"));
    assert_eq!(result.rewrite.as_deref(), Some("time RUST_LOG=1 cargo test"));
    assert!(result.deny.is_none());
    assert_eq!(result.matched_rules, vec!["rule-0".to_string(), "rule-1".to_string()]);
}

#[test]
fn braced_reference_expands_from_environment() {
    let env = HookEnv { vars: Environment { vars: vec![("WRAP".into(), "nice".into())] }, branch_slug: None };
    let config = HookPipelineConfig {
        hooks: vec![rule(
            HookEvent::PreToolUse,
            HookAction::Rewrite { inject: None, prepend: Some("${WRAP} -n 5".into()), replace: None },
        )],
    };
    let result = run_all(&config, &ctx(HookEvent::PreToolUse, "make"), &env, None);
    assert_eq!(result.rewrite.as_deref(), Some("nice -n 5 make"));
}
