use obsidian_host::bus::{Command, Event, EventBus, EventType};
use obsidian_host::host_api::{ApiError, PluginApi};
use obsidian_host::plugin::{PluginCapability, PluginContext};
use obsidian_host::storage::PluginStorage;

fn api(id: &str, capabilities: Vec<PluginCapability>) -> PluginApi {
    PluginApi::new(PluginContext { plugin_id: id.to_string(), vault_id: None, capabilities })
}

#[test]
fn test_plugin_storage() {
    let mut storage = PluginStorage::new();

    storage.set("plugin1", "key1", "\"value1\"".to_string());
    assert_eq!(storage.get("plugin1", "key1"), Some("\"value1\"".to_string()));

    storage.delete("plugin1", "key1");
    assert_eq!(storage.get("plugin1", "key1"), None);
}

#[test]
fn test_event_bus() {
    let mut bus = EventBus::new();

    let sub_id = bus.subscribe(EventType::FileOpen);

    assert!(sub_id.starts_with("sub_"));

    bus.unsubscribe(&sub_id);
}

#[test]
fn test_subscription_ids_are_fresh() {
    let mut bus = EventBus::new();
    let a = bus.subscribe(EventType::FileOpen);
    let b = bus.subscribe(EventType::FileOpen);
    let c = bus.subscribe(EventType::FileSave);
    assert_eq!(a, "sub_0");
    assert_eq!(b, "sub_1");
    assert_eq!(c, "sub_2");
}

#[test]
fn test_emit_orders_within_type() {
    let mut bus = EventBus::new();
    let a = bus.subscribe(EventType::FileOpen);
    let _s = bus.subscribe(EventType::FileSave);
    let b = bus.subscribe(EventType::FileOpen);
    let ev = Event { event_type: EventType::FileOpen, data: "{}".to_string() };
    assert_eq!(bus.emit(&ev), vec![a.clone(), b.clone()]);
    bus.unsubscribe(&a);
    assert_eq!(bus.emit(&ev), vec![b]);
}

#[test]
fn test_unsubscribing_unknown_id_is_a_noop() {
    let mut bus = EventBus::new();
    let a = bus.subscribe(EventType::FileOpen);
    bus.unsubscribe("sub_9999");
    bus.unsubscribe("not-even-an-id");
    let ev = Event { event_type: EventType::FileOpen, data: "{}".to_string() };
    assert_eq!(bus.emit(&ev), vec![a]);
}

#[test]
fn test_storage_gate_denies_undeclared_capability() {
    let handle = api("writer", vec![]);
    let mut storage = PluginStorage::new();
    match handle.storage_set(&mut storage, "k", "1".to_string()) {
        Err(ApiError::Forbidden { plugin_id, capability }) => {
            assert_eq!(plugin_id, "writer");
            assert_eq!(capability, PluginCapability::Storage);
        }
        _ => panic!("expected a forbidden error"),
    }
    // and the granted path succeeds
    let granted = api("writer", vec![PluginCapability::Storage]);
    granted.storage_set(&mut storage, "k", "1".to_string()).unwrap();
    assert_eq!(granted.storage_get(&storage, "k").unwrap(), Some("1".to_string()));
}

#[test]
fn test_storage_namespaces_are_isolated() {
    let mut storage = PluginStorage::new();
    let alpha = api("alpha", vec![PluginCapability::Storage]);
    let beta = api("beta", vec![PluginCapability::Storage]);

    alpha.storage_set(&mut storage, "shared-key", "\"alpha\"".to_string()).unwrap();
    beta.storage_set(&mut storage, "shared-key", "\"beta\"".to_string()).unwrap();

    assert_eq!(alpha.storage_get(&storage, "shared-key").unwrap(), Some("\"alpha\"".to_string()));
    assert_eq!(beta.storage_get(&storage, "shared-key").unwrap(), Some("\"beta\"".to_string()));

    alpha.storage_delete(&mut storage, "shared-key").unwrap();
    assert_eq!(alpha.storage_get(&storage, "shared-key").unwrap(), None);
    assert_eq!(beta.storage_get(&storage, "shared-key").unwrap(), Some("\"beta\"".to_string()));

    alpha.storage_set(&mut storage, "other", "1".to_string()).unwrap();
    beta.storage_clear(&mut storage).unwrap();
    assert_eq!(beta.storage_get(&storage, "shared-key").unwrap(), None);
    assert_eq!(alpha.storage_get(&storage, "other").unwrap(), Some("1".to_string()));
}

#[test]
fn test_http_is_gated_then_unimplemented() {
    let no_net = api("p", vec![]);
    match no_net.http_get("http://example.invalid") {
        Err(ApiError::Forbidden { capability, .. }) => {
            assert_eq!(capability, PluginCapability::Network)
        }
        _ => panic!("expected a forbidden error"),
    }
    let with_net = api("p", vec![PluginCapability::Network]);
    match with_net.http_get("http://example.invalid") {
        Err(ApiError::Unimplemented { feature }) => assert_eq!(feature, "HTTP client"),
        _ => panic!("expected an unimplemented error"),
    }
    match with_net.http_post("http://example.invalid", "{}".to_string()) {
        Err(ApiError::Unimplemented { .. }) => {}
        _ => panic!("expected an unimplemented error"),
    }
}

#[test]
fn test_register_command_key_and_lookup() {
    let mut bus = EventBus::new();
    let handle = api("tools", vec![PluginCapability::Commands]);
    let command = Command {
        id: "fmt".to_string(),
        name: "Format".to_string(),
        description: Some("Reformat the note".to_string()),
        hotkey: None,
    };
    let key = handle.register_command(&mut bus, command).unwrap();
    assert_eq!(key, "tools:fmt");
    let found = bus.get_command("tools:fmt").unwrap();
    assert_eq!(found.name, "Format");
    assert!(bus.get_command("tools:other").is_none());

    let ungated = api("tools", vec![]);
    let command2 = Command {
        id: "x".to_string(),
        name: "X".to_string(),
        description: None,
        hotkey: None,
    };
    assert!(ungated.register_command(&mut bus, command2).is_err());
}

#[test]
fn test_show_notice_payload_and_gate() {
    let bus = EventBus::new();
    let ungated = api("ui", vec![]);
    assert!(ungated.show_notice(&bus, "hi", None).is_err());

    let handle = api("ui", vec![PluginCapability::ModifyUI]);
    let (event, deliveries) = handle.show_notice(&bus, "saved \"x\"", Some(1500)).unwrap();
    assert_eq!(event.event_type, EventType::ShowNotice);
    assert_eq!(event.data, "{\"message\":\"saved \\\"x\\\"\",\"duration\":1500}");
    assert!(deliveries.is_empty());

    let (event2, _) = handle.show_notice(&bus, "hi", None).unwrap();
    assert_eq!(event2.data, "{\"message\":\"hi\",\"duration\":3000}");
}

#[test]
fn test_send_message_payload() {
    let bus = EventBus::new();
    let handle = api("sender", vec![]);
    let (event, _) = handle.send_message(&bus, "receiver", "{\"n\":1}").unwrap();
    assert_eq!(event.event_type, EventType::PluginMessage);
    assert_eq!(event.data, "{\"from\":\"sender\",\"to\":\"receiver\",\"message\":{\"n\":1}}");
    // the payload is a JSON document
    let parsed: serde_json::Value = serde_json::from_str(&event.data).unwrap();
    assert_eq!(parsed["from"], "sender");
    assert_eq!(parsed["to"], "receiver");
    assert_eq!(parsed["message"]["n"], 1);
}

#[test]
fn test_list_files_gate_and_filter() {
    let files = vec![
        "notes/a.md".to_string(),
        "notes/b.md".to_string(),
        "img/logo.png".to_string(),
    ];
    let ungated = api("p", vec![]);
    assert!(ungated.list_files(&files, None).is_err());

    let handle = api("p", vec![PluginCapability::ReadFiles]);
    assert_eq!(handle.list_files(&files, None).unwrap(), files);
    assert_eq!(
        handle.list_files(&files, Some("notes/")).unwrap(),
        vec!["notes/a.md".to_string(), "notes/b.md".to_string()]
    );
    assert!(handle.list_files(&files, Some("missing")).unwrap().is_empty());
}

#[test]
fn test_parse_markdown_through_host() {
    let handle = api("p", vec![]);
    let html = handle.parse_markdown("# Hello World\n\nThis is **bold**.").unwrap();
    assert!(html.contains("<h1>Hello World</h1>"));
    assert!(html.contains("<strong>bold</strong>"));
}

#[test]
fn test_on_and_off_event_through_host() {
    let mut bus = EventBus::new();
    let handle = api("p", vec![]);
    let id = handle.on_event(&mut bus, EventType::EditorChange).unwrap();
    let ev = Event { event_type: EventType::EditorChange, data: "{}".to_string() };
    assert_eq!(handle.emit_event(&bus, &ev).unwrap(), vec![id.clone()]);
    handle.off_event(&mut bus, &id).unwrap();
    assert!(handle.emit_event(&bus, &ev).unwrap().is_empty());
    // unsubscribing an unknown id never errors
    handle.off_event(&mut bus, "sub_42").unwrap();
}

#[test]
fn test_file_gates_follow_declared_capabilities() {
    let reader = api("files", vec![PluginCapability::ReadFiles]);
    assert!(reader.authorize_file_read().is_ok());
    assert!(reader.authorize_file_write().is_err());
    assert!(reader.authorize_file_delete().is_err());

    let writer = api(
        "files",
        vec![PluginCapability::WriteFiles, PluginCapability::DeleteFiles],
    );
    assert!(writer.authorize_file_read().is_err());
    assert!(writer.authorize_file_write().is_ok());
    assert!(writer.authorize_file_delete().is_ok());
}
