use obsidian_host::plugin::{Dependency, Plugin, PluginManifest, PluginState, PluginType};
use obsidian_host::resolver::{resolve_order, ResolveError};

fn manifest(id: &str, version: &str, deps: Vec<(&str, &str)>) -> PluginManifest {
    PluginManifest {
        id: id.to_string(),
        name: id.to_string(),
        version: version.to_string(),
        description: None,
        author: None,
        license: None,
        main: "main.py".to_string(),
        plugin_type: PluginType::Python,
        styles: Vec::new(),
        min_host_version: None,
        dependencies: deps
            .into_iter()
            .map(|(d, req)| Dependency { id: d.to_string(), req: req.to_string() })
            .collect(),
        capabilities: Vec::new(),
        hooks: Vec::new(),
        config_schema: None,
    }
}

fn plugin(id: &str, version: &str, deps: Vec<(&str, &str)>) -> Plugin {
    Plugin {
        manifest: manifest(id, version, deps),
        path: format!("/plugins/{}", id),
        enabled: true,
        state: PluginState::Unloaded,
        config: None,
        last_error: None,
    }
}

#[test]
fn test_end_to_end_example_order() {
    // A has no deps; B depends on A ^1.0.0 with A at 1.2.0; C depends on B
    // at exactly 1.0.0 with B at 1.0.0.
    let plugins = vec![
        plugin("A", "1.2.0", vec![]),
        plugin("B", "1.0.0", vec![("A", "^1.0.0")]),
        plugin("C", "1.0.0", vec![("B", "1.0.0")]),
    ];
    let order = resolve_order(&plugins).unwrap();
    assert_eq!(order, vec!["A".to_string(), "B".to_string(), "C".to_string()]);
}

#[test]
fn test_end_to_end_example_version_change_fails() {
    // With A moved to 2.0.0, B's ^1.0.0 constraint is unmet and resolution
    // names it.
    let plugins = vec![
        plugin("A", "2.0.0", vec![]),
        plugin("B", "1.0.0", vec![("A", "^1.0.0")]),
        plugin("C", "1.0.0", vec![("B", "1.0.0")]),
    ];
    match resolve_order(&plugins) {
        Err(ResolveError::VersionMismatch { plugin_id, dependency_id, required, found }) => {
            assert_eq!(plugin_id, "B");
            assert_eq!(dependency_id, "A");
            assert_eq!(required, "^1.0.0");
            assert_eq!(found, "2.0.0");
        }
        other => panic!("expected a version mismatch, got {:?}", other.is_ok()),
    }
}

#[test]
fn test_acyclic_graph_orders_deps_first() {
    let plugins = vec![
        plugin("editor", "1.0.0", vec![("core", ">=1.0.0"), ("ui", "~2.1.0")]),
        plugin("ui", "2.1.5", vec![("core", "^1.0.0")]),
        plugin("core", "1.4.2", vec![]),
    ];
    let order = resolve_order(&plugins).unwrap();
    let pos = |id: &str| order.iter().position(|x| x == id).unwrap();
    assert_eq!(order.len(), 3);
    assert!(pos("core") < pos("ui"));
    assert!(pos("core") < pos("editor"));
    assert!(pos("ui") < pos("editor"));
}

#[test]
fn test_cycle_is_rejected() {
    let plugins = vec![
        plugin("a", "1.0.0", vec![("b", "1.0.0")]),
        plugin("b", "1.0.0", vec![("c", "1.0.0")]),
        plugin("c", "1.0.0", vec![("a", "1.0.0")]),
    ];
    match resolve_order(&plugins) {
        Err(ResolveError::CircularDependency { plugin_id }) => {
            assert!(["a", "b", "c"].contains(&plugin_id.as_str()));
        }
        _ => panic!("expected a circular dependency error"),
    }
}

#[test]
fn test_self_cycle_is_rejected() {
    let plugins = vec![plugin("selfish", "1.0.0", vec![("selfish", "1.0.0")])];
    match resolve_order(&plugins) {
        Err(ResolveError::CircularDependency { plugin_id }) => {
            assert_eq!(plugin_id, "selfish");
        }
        _ => panic!("expected a circular dependency error"),
    }
}

#[test]
fn test_missing_dependency_is_rejected() {
    let plugins = vec![plugin("lonely", "1.0.0", vec![("ghost", "^1.0.0")])];
    match resolve_order(&plugins) {
        Err(ResolveError::MissingDependency { plugin_id, dependency_id }) => {
            assert_eq!(plugin_id, "lonely");
            assert_eq!(dependency_id, "ghost");
        }
        _ => panic!("expected a missing dependency error"),
    }
}

#[test]
fn test_error_messages_name_the_offenders() {
    let plugins = vec![plugin("lonely", "1.0.0", vec![("ghost", "^1.0.0")])];
    let err = resolve_order(&plugins).unwrap_err();
    let msg = err.message();
    assert!(msg.contains("lonely"));
    assert!(msg.contains("ghost"));
}

#[test]
fn test_empty_graph_resolves_empty() {
    let plugins: Vec<Plugin> = Vec::new();
    let order = resolve_order(&plugins).unwrap();
    assert!(order.is_empty());
}
