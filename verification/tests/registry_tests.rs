use obsidian_host::plugin::{
    Dependency, ManifestError, PluginCapability, PluginManifest, PluginState, PluginType,
    validate_manifest,
};
use obsidian_host::registry::{DiscoveredPlugin, PluginService};

fn manifest(id: &str, version: &str) -> PluginManifest {
    PluginManifest {
        id: id.to_string(),
        name: id.to_string(),
        version: version.to_string(),
        description: None,
        author: None,
        license: None,
        main: "main.py".to_string(),
        plugin_type: PluginType::Python,
        styles: Vec::new(),
        min_host_version: None,
        dependencies: Vec::new(),
        capabilities: vec![PluginCapability::Storage],
        hooks: Vec::new(),
        config_schema: None,
    }
}

fn candidate(id: &str, version: &str) -> DiscoveredPlugin {
    DiscoveredPlugin { manifest: manifest(id, version), path: format!("/plugins/{}", id) }
}

fn enabled_ids(service: &PluginService) -> Vec<String> {
    let mut ids = service.config.persisted_ids();
    ids.sort();
    ids
}

#[test]
fn test_fresh_install_auto_enables_all() {
    let mut service = PluginService::new(Vec::new(), "1.0.0");
    let rejected = service.discover_plugins(vec![candidate("a", "1.0.0"), candidate("b", "2.0.0")]);
    assert!(rejected.is_empty());
    assert_eq!(enabled_ids(&service), vec!["a".to_string(), "b".to_string()]);
    let a = service.get_plugin("a").unwrap();
    assert!(a.enabled);
    assert_eq!(a.state, PluginState::Unloaded);
}

#[test]
fn test_restart_respects_disabled_choice() {
    // first run: everything auto-enabled, then the user disables one
    let mut service = PluginService::new(Vec::new(), "1.0.0");
    service.discover_plugins(vec![candidate("a", "1.0.0"), candidate("b", "2.0.0")]);
    service.disable_plugin("b").unwrap();
    let persisted = service.config.persisted_ids();

    // restart: the persisted set is not empty, so nothing is re-auto-enabled
    let mut service2 = PluginService::new(persisted, "1.0.0");
    service2.discover_plugins(vec![candidate("a", "1.0.0"), candidate("b", "2.0.0")]);
    assert_eq!(enabled_ids(&service2), vec!["a".to_string()]);
    let b = service2.get_plugin("b").unwrap();
    assert!(!b.enabled);
    assert_eq!(b.state, PluginState::Disabled);
}

#[test]
fn test_enable_disable_enable_is_idempotent_on_persisted_state() {
    let mut service = PluginService::new(Vec::new(), "1.0.0");
    service.discover_plugins(vec![candidate("a", "1.0.0")]);
    service.disable_plugin("a").unwrap();

    service.enable_plugin("a").unwrap();
    let after_first_enable = enabled_ids(&service);
    let record_after_first = (
        service.get_plugin("a").unwrap().enabled,
        service.get_plugin("a").unwrap().state,
    );
    service.disable_plugin("a").unwrap();
    assert_eq!(enabled_ids(&service), Vec::<String>::new());
    service.enable_plugin("a").unwrap();
    assert_eq!(enabled_ids(&service), after_first_enable);
    assert_eq!(after_first_enable, vec!["a".to_string()]);
    let record_after_round_trip = (
        service.get_plugin("a").unwrap().enabled,
        service.get_plugin("a").unwrap().state,
    );
    assert_eq!(record_after_round_trip, record_after_first);
    assert_eq!(record_after_round_trip, (true, PluginState::Unloaded));
}

#[test]
fn test_enable_unknown_plugin_errors() {
    let mut service = PluginService::new(Vec::new(), "1.0.0");
    let err = service.enable_plugin("nope").unwrap_err();
    assert!(err.message().contains("nope"));
}

#[test]
fn test_validation_rejects_bad_manifests() {
    let host = "1.0.0";
    let mut m = manifest("", "1.0.0");
    assert_eq!(validate_manifest(&m, host), Err(ManifestError::EmptyId));
    m = manifest("a", "1.0.0");
    m.name = String::new();
    assert_eq!(validate_manifest(&m, host), Err(ManifestError::EmptyName));
    m = manifest("a", "1.0.0");
    m.main = String::new();
    assert_eq!(validate_manifest(&m, host), Err(ManifestError::EmptyEntryPoint));
    m = manifest("a", "1.0");
    assert_eq!(validate_manifest(&m, host), Err(ManifestError::InvalidVersion));
    m = manifest("a", "1.0.0");
    m.min_host_version = Some("nope".to_string());
    assert_eq!(validate_manifest(&m, host), Err(ManifestError::InvalidMinHostVersion));
    m = manifest("a", "1.0.0");
    m.min_host_version = Some("2.0.0".to_string());
    assert_eq!(validate_manifest(&m, host), Err(ManifestError::IncompatibleHostVersion));
    m = manifest("a", "1.0.0");
    m.min_host_version = Some("0.9.0".to_string());
    assert_eq!(validate_manifest(&m, host), Ok(()));
}

#[test]
fn test_discovery_skips_invalid_and_keeps_valid() {
    let mut service = PluginService::new(Vec::new(), "1.0.0");
    let rejected = service.discover_plugins(vec![
        candidate("good", "1.0.0"),
        candidate("bad", "not-semver"),
    ]);
    assert_eq!(rejected.len(), 1);
    assert_eq!(rejected[0].path, "/plugins/bad");
    assert_eq!(rejected[0].error, ManifestError::InvalidVersion);
    assert!(service.get_plugin("good").is_some());
    assert!(service.get_plugin("bad").is_none());
    assert_eq!(enabled_ids(&service), vec!["good".to_string()]);
}

#[test]
fn test_load_lifecycle_transitions() {
    let mut service = PluginService::new(Vec::new(), "1.0.0");
    service.discover_plugins(vec![candidate("a", "1.0.0")]);
    service.resolve_dependencies().unwrap();

    let instr = service.begin_load("a").unwrap().unwrap();
    assert_eq!(instr.plugin_type, PluginType::Python);
    assert_eq!(instr.main, "main.py");
    assert_eq!(instr.interpreter_module(), "main");
    assert_eq!(instr.context.plugin_id, "a");
    assert_eq!(instr.context.capabilities, vec![PluginCapability::Storage]);
    assert_eq!(service.get_plugin("a").unwrap().state, PluginState::Loading);

    service.finish_load("a", None).unwrap();
    assert_eq!(service.get_plugin("a").unwrap().state, PluginState::Loaded);
    assert_eq!(service.loaded_plugin_ids(), vec!["a".to_string()]);

    // beginning a load of an already loaded extension is a no-op
    assert!(service.begin_load("a").unwrap().is_none());

    service.unload_plugin("a");
    assert_eq!(service.get_plugin("a").unwrap().state, PluginState::Unloaded);
    assert!(service.loaded_plugin_ids().is_empty());
}

#[test]
fn test_load_failure_is_recorded_and_contained() {
    let mut service = PluginService::new(Vec::new(), "1.0.0");
    service.discover_plugins(vec![candidate("a", "1.0.0"), candidate("b", "1.0.0")]);
    service.resolve_dependencies().unwrap();

    service.begin_load("a").unwrap().unwrap();
    service.finish_load("a", Some("entry point missing".to_string())).unwrap();
    let a = service.get_plugin("a").unwrap();
    assert_eq!(a.state, PluginState::Failed);
    assert_eq!(a.last_error, Some("entry point missing".to_string()));

    // the failure does not stop a peer from loading
    service.begin_load("b").unwrap().unwrap();
    service.finish_load("b", None).unwrap();
    assert_eq!(service.get_plugin("b").unwrap().state, PluginState::Loaded);

    let stats = service.get_stats();
    assert_eq!(stats.total, 2);
    assert_eq!(stats.enabled, 2);
    assert_eq!(stats.loaded, 1);
    assert_eq!(stats.failed, 1);
}

#[test]
fn test_disabled_plugin_may_not_load() {
    let mut service = PluginService::new(Vec::new(), "1.0.0");
    service.discover_plugins(vec![candidate("a", "1.0.0")]);
    service.disable_plugin("a").unwrap();
    let err = service.begin_load("a").unwrap_err();
    assert!(err.message().contains("disabled"));
}

#[test]
fn test_resolve_dependencies_stores_order() {
    let mut service = PluginService::new(Vec::new(), "1.0.0");
    let mut b = candidate("b", "1.0.0");
    b.manifest.dependencies.push(Dependency { id: "a".to_string(), req: "^1.0.0".to_string() });
    service.discover_plugins(vec![b, candidate("a", "1.2.0")]);
    let order = service.resolve_dependencies().unwrap();
    assert_eq!(order, vec!["a".to_string(), "b".to_string()]);
    assert_eq!(service.get_load_order(), order);
}

#[test]
fn test_has_capability() {
    let mut service = PluginService::new(Vec::new(), "1.0.0");
    service.discover_plugins(vec![candidate("a", "1.0.0")]);
    assert!(service.has_capability("a", PluginCapability::Storage));
    assert!(!service.has_capability("a", PluginCapability::Network));
    assert!(!service.has_capability("missing", PluginCapability::Storage));
}

#[test]
fn test_reload_restarts_the_lifecycle() {
    let mut service = PluginService::new(Vec::new(), "1.0.0");
    service.discover_plugins(vec![candidate("a", "1.0.0")]);
    service.resolve_dependencies().unwrap();
    service.begin_load("a").unwrap().unwrap();
    service.finish_load("a", None).unwrap();
    assert_eq!(service.get_plugin("a").unwrap().state, PluginState::Loaded);

    // reload is unload-then-load: a fresh instruction, state back to Loading
    let instr = service.reload_plugin("a").unwrap().unwrap();
    assert_eq!(instr.main, "main.py");
    assert_eq!(service.get_plugin("a").unwrap().state, PluginState::Loading);
    service.finish_load("a", None).unwrap();
    assert_eq!(service.get_plugin("a").unwrap().state, PluginState::Loaded);

    service.disable_plugin("a").unwrap();
    assert!(service.reload_plugin("a").is_err());
    assert_eq!(service.get_plugin("a").unwrap().state, PluginState::Disabled);
    assert!(service.reload_plugin("ghost").is_err());
}

#[test]
fn test_resolution_is_deterministic() {
    // the same manifest set, discovered in different orders, resolves to
    // one load order
    let build = |order: [&str; 3]| {
        let mut service = PluginService::new(Vec::new(), "1.0.0");
        let cands: Vec<DiscoveredPlugin> = order
            .iter()
            .map(|id| {
                let mut c = candidate(id, "1.0.0");
                if *id != "a" {
                    c.manifest.dependencies.push(Dependency {
                        id: "a".to_string(),
                        req: "^1.0.0".to_string(),
                    });
                    c.manifest.version = "1.0.0".to_string();
                } else {
                    c.manifest.version = "1.2.0".to_string();
                }
                c
            })
            .collect();
        service.discover_plugins(cands);
        service
    };
    let order1 = build(["b", "c", "a"]).resolve_dependencies().unwrap();
    let order2 = build(["c", "a", "b"]).resolve_dependencies().unwrap();
    let order3 = build(["a", "b", "c"]).resolve_dependencies().unwrap();
    assert_eq!(order1, order2);
    assert_eq!(order2, order3);
    // a must come first (the only plugin with no dependencies); the
    // independent b and c follow in id order
    assert_eq!(order1, vec!["a".to_string(), "b".to_string(), "c".to_string()]);
}
