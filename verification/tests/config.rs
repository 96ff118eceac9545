use crs_core::config::{ConfigBuilder, ConfigSources, HookProtocol};

fn sources() -> ConfigSources {
    ConfigSources {
        home: Some("/home/joe".to_string()),
        rules_env: None,
        state_env: None,
        filters_env: None,
        filters_project: None,
        filters_global: None,
    }
}

#[test]
fn default_builder_gives_legacy_rules_path() {
    let cfg = ConfigBuilder::new().build(&sources());
    assert!(cfg.rules_path.contains("course-correct-rules.json"), "got: {}", cfg.rules_path);
}

#[test]
fn default_builder_gives_legacy_global_state_path() {
    let cfg = ConfigBuilder::new().build(&sources());
    assert!(cfg.global_state_path.contains("course-correct-state.json"), "got: {}", cfg.global_state_path);
}

#[test]
fn default_builder_gives_legacy_local_state_path() {
    let cfg = ConfigBuilder::new().build(&sources());
    assert_eq!(cfg.local_state_path, ".ctx/course-correct-state.json");
}

#[test]
fn profile_builder_resolves_rules_under_profiles_dir() {
    let cfg = ConfigBuilder::new().profile("codex").build(&sources());
    assert!(cfg.rules_path.contains("profiles/codex/rules.json"), "got: {}", cfg.rules_path);
}

#[test]
fn profile_builder_resolves_global_state_under_profiles_dir() {
    let cfg = ConfigBuilder::new().profile("codex").build(&sources());
    assert!(cfg.global_state_path.contains("profiles/codex/state.json"), "got: {}", cfg.global_state_path);
}

#[test]
fn profile_builder_gives_profile_scoped_local_state_path() {
    let cfg = ConfigBuilder::new().profile("codex").build(&sources());
    assert_eq!(cfg.local_state_path, ".ctx/crs-codex-state.json");
}

#[test]
fn rules_override_wins_over_profile() {
    let cfg = ConfigBuilder::new().profile("codex").rules("/tmp/custom-rules.json".to_string()).build(&sources());
    assert_eq!(cfg.rules_path, "/tmp/custom-rules.json");
}

#[test]
fn state_override_wins_over_profile() {
    let cfg = ConfigBuilder::new().profile("codex").state("/tmp/custom-state.json".to_string()).build(&sources());
    assert_eq!(cfg.global_state_path, "/tmp/custom-state.json");
}

#[test]
fn default_builder_gives_claude_protocol() {
    let cfg = ConfigBuilder::new().build(&sources());
    assert_eq!(cfg.protocol, HookProtocol::Claude);
}

#[test]
fn codex_profile_infers_codex_protocol() {
    let cfg = ConfigBuilder::new().profile("codex").build(&sources());
    assert_eq!(cfg.protocol, HookProtocol::Codex);
}

#[test]
fn protocol_override_wins() {
    let cfg = ConfigBuilder::new().profile("codex").protocol(HookProtocol::Claude).build(&sources());
    assert_eq!(cfg.protocol, HookProtocol::Claude);
}

#[test]
fn effective_state_path_returns_global_when_local_absent() {
    let cfg = ConfigBuilder::new().build(&sources());
    assert_eq!(cfg.effective_state_path(false), &cfg.global_state_path);
}

#[test]
fn effective_state_path_prefers_existing_local_file() {
    let cfg = ConfigBuilder::new().build(&sources());
    assert_eq!(cfg.effective_state_path(true), &cfg.local_state_path);
}

#[test]
fn env_var_overrides_default_rules_path() {
    let mut src = sources();
    src.rules_env = Some("/tmp/test-rules.json".to_string());
    let cfg = ConfigBuilder::new().build(&src);
    assert_eq!(cfg.rules_path, "/tmp/test-rules.json");
}

#[test]
fn default_rules_path_is_xdg() {
    let cfg = ConfigBuilder::new().build(&sources());
    assert_eq!(cfg.rules_path, "/home/joe/.config/coursers/course-correct-rules.json");
}

#[test]
fn missing_home_falls_back_to_tmp() {
    let mut src = sources();
    src.home = None;
    let cfg = ConfigBuilder::new().profile("work").build(&src);
    assert_eq!(cfg.rules_path, "/tmp/.config/coursers/profiles/work/rules.json");
}

#[test]
fn filters_env_path_captured_when_set() {
    let mut src = sources();
    src.filters_env = Some("/tmp/f.toml".to_string());
    let cfg = ConfigBuilder::new().build(&src);
    assert_eq!(cfg.filters_env_path.as_deref(), Some("/tmp/f.toml"));
    let loader = cfg.filters_loader();
    assert_eq!(loader.env_path.as_deref(), Some("/tmp/f.toml"));
    let rw = cfg.rewrite_loader();
    assert_eq!(rw.env_path.as_deref(), Some("/tmp/f.toml"));
}

#[test]
fn filters_env_path_none_when_not_set() {
    let cfg = ConfigBuilder::new().build(&sources());
    assert!(cfg.filters_env_path.is_none());
}

#[test]
fn rules_loader_uses_resolved_rules_path() {
    let cfg = ConfigBuilder::new().profile("codex").build(&sources());
    assert_eq!(cfg.rules_loader().path, cfg.rules_path);
}

#[test]
fn state_store_uses_effective_state_path() {
    let cfg = ConfigBuilder::new().build(&sources());
    assert_eq!(cfg.state_store(false).path, cfg.global_state_path);
    assert_eq!(cfg.state_store(true).path, cfg.local_state_path);
}

#[test]
fn parent_of_follows_path_pop() {
    let parent_of = crs_core::config::parent_of;
    assert_eq!(parent_of("/a/b").as_deref(), Some("/a"));
    assert_eq!(parent_of("/a/b/").as_deref(), Some("/a"));
    assert_eq!(parent_of("/a").as_deref(), Some("/"));
    assert_eq!(parent_of("/"), None);
    assert_eq!(parent_of("a"), Some(String::new()));
    assert_eq!(parent_of(""), None);
    assert_eq!(parent_of("a//b").as_deref(), Some("a"));
}

#[test]
fn walks_up_to_find_filters() {
    let root = tempfile::TempDir::new().unwrap();
    let ctx = tempfile::Builder::new().prefix(".ctx").rand_bytes(0).tempdir_in(root.path()).unwrap();
    let file = tempfile::Builder::new().prefix("crs-filters.toml").rand_bytes(0).tempfile_in(ctx.path()).unwrap();
    let a = tempfile::Builder::new().prefix("a").rand_bytes(0).tempdir_in(root.path()).unwrap();
    let nested = tempfile::Builder::new().prefix("b").rand_bytes(0).tempdir_in(a.path()).unwrap();
    let found = crs_core::config::find_upward(
        nested.path().to_str().unwrap(),
        ".ctx/crs-filters.toml",
        |p: &str| std::path::Path::new(p).exists(),
    );
    assert_eq!(found.as_deref(), file.path().to_str());
}

#[test]
fn find_upward_none_when_nothing_present() {
    let found = crs_core::config::find_upward("/x/y", "f", |_p: &str| false);
    assert_eq!(found, None);
}

fn filters_loader(env: Option<&str>, project: Option<&str>, global: Option<&str>) -> crs_core::config::ProfileFsFiltersLoader {
    crs_core::config::ProfileFsFiltersLoader {
        env_path: env.map(String::from),
        project_path: project.map(String::from),
        global_path: global.map(String::from),
    }
}

#[test]
fn filters_env_path_wins_in_filters_loader() {
    let cfg = ConfigBuilder::new().build(&ConfigSources {
        filters_env: Some("/tmp/env-override-filters.toml".into()),
        filters_project: Some("/tmp/project-filters.toml".into()),
        ..sources()
    });
    let loader = cfg.filters_loader();
    assert_eq!(loader.env_path.as_deref(), Some("/tmp/env-override-filters.toml"));
    assert_eq!(loader.filters_path().as_deref(), Some("/tmp/env-override-filters.toml"));
}

#[test]
fn filters_env_path_wins_in_rewrite_loader() {
    let cfg = ConfigBuilder::new().build(&ConfigSources {
        filters_env: Some("/tmp/env-override-filters.toml".into()),
        filters_global: Some("/tmp/global-filters.toml".into()),
        ..sources()
    });
    let loader = cfg.rewrite_loader();
    assert_eq!(loader.env_path.as_deref(), Some("/tmp/env-override-filters.toml"));
    assert_eq!(loader.rewrite_paths(), vec!["/tmp/env-override-filters.toml".to_string()]);
}

#[test]
fn filters_loader_project_path_wins_over_global_when_no_env() {
    let loader = filters_loader(None, Some("/tmp/project-filters.toml"), Some("/tmp/global-filters.toml"));
    assert_eq!(loader.filters_path().as_deref(), Some("/tmp/project-filters.toml"));
}

#[test]
fn filters_loader_falls_back_to_global_when_project_absent() {
    let loader = filters_loader(None, None, Some("/tmp/global-filters.toml"));
    assert_eq!(loader.filters_path().as_deref(), Some("/tmp/global-filters.toml"));
}

#[test]
fn filters_loader_returns_none_when_all_absent() {
    assert!(filters_loader(None, None, None).filters_path().is_none());
}

#[test]
fn rewrite_loader_merges_project_before_global() {
    let loader = crs_core::config::ProfileFsRewriteLoader {
        env_path: None,
        project_path: Some("/p.toml".into()),
        global_path: Some("/g.toml".into()),
    };
    assert_eq!(loader.rewrite_paths(), vec!["/p.toml".to_string(), "/g.toml".to_string()]);
}

#[test]
fn state_file_tilde_expands_to_home() {
    let resolve_state_file = crs_core::config::resolve_state_file;
    assert_eq!(resolve_state_file("~/state/crs.json", "/home/joe"), "/home/joe/state/crs.json");
    assert_eq!(resolve_state_file("~/state/crs.json", ""), "state/crs.json");
    assert_eq!(resolve_state_file("/var/crs.json", "/home/joe"), "/var/crs.json");
    assert_eq!(resolve_state_file("~state.json", "/home/joe"), "~state.json");
}
