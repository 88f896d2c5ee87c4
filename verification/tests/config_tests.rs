use obsidian_host::config::{default_exclusions, AppConfig};

#[test]
fn test_default_config() {
    let config = AppConfig::default();
    assert_eq!(config.server.host, "0.0.0.0");
    assert_eq!(config.server.port, 8080);
    assert_eq!(config.database.path, "./obsidian-host.db");
    assert!(config.vault.index_exclusions.contains(&".git".to_string()));
}

#[test]
fn test_exclusions_default() {
    let exclusions = default_exclusions();
    assert!(exclusions.contains(&".git".to_string()));
    assert!(exclusions.contains(&".obsidian".to_string()));
    assert!(exclusions.contains(&".trash".to_string()));
}

#[test]
fn test_default_auth() {
    let config = AppConfig::default();
    assert!(!config.auth.enabled);
    assert_eq!(config.auth.external_url, "http://localhost:8080");
    assert_eq!(config.auth.session_duration_hours, 168);
    assert_eq!(config.auth.session_secret.len(), 64);
    assert!(config.auth.session_secret.chars().all(|c| c.is_ascii_hexdigit()));
}
