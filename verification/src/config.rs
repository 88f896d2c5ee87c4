//! Application configuration: server, database, vault and authentication
//! settings with their documented defaults.

use vstd::prelude::*;
use crate::strutil::seq_views;

verus! {

/// Authentication settings.
pub struct AuthConfig {
    /// When false, all requests are allowed without login.
    pub enabled: bool,
    pub google_client_id: String,
    pub google_client_secret: String,
    /// The external URL of this application, used to build redirect URIs.
    pub external_url: String,
    pub session_duration_hours: i64,
    /// Secret for signing session cookies.
    pub session_secret: String,
    /// Force the Secure flag on cookies even over plain HTTP, for use behind
    /// a TLS-terminating proxy.
    pub force_secure_cookies: bool,
}

/// Listening address settings.
pub struct ServerConfig {
    pub host: String,
    pub port: u16,
}

/// Database location settings.
pub struct DatabaseConfig {
    pub path: String,
}

/// Vault indexing settings.
pub struct VaultConfig {
    pub index_exclusions: Vec<String>,
}

/// The whole application configuration.
pub struct AppConfig {
    pub server: ServerConfig,
    pub database: DatabaseConfig,
    pub vault: VaultConfig,
    pub auth: AuthConfig,
}

pub fn default_auth_enabled() -> (r: bool)
    ensures
        r == false,
{
    false
}

pub fn default_external_url() -> (r: String)
    ensures
        r@ == "http://localhost:8080"@,
{
    "http://localhost:8080".to_owned()
}

/// Seven days, in hours.
pub fn default_session_hours() -> (r: i64)
    ensures
        r == 168,
{
    168
}

/// Relies on rand's thread-local generator: 32 freshly drawn bytes; nothing
/// is promised of their values.
#[verifier::external_body]
fn random_bytes32() -> (r: Vec<u8>)
    ensures
        r@.len() == 32,
{
    let mut rng = rand::rng();
    (0..32).map(|_| rand::Rng::random::<u8>(&mut rng)).collect()
}

/// Relies on hex::encode: two lowercase hex digits for each input byte.
#[verifier::external_body]
fn hex_encode(bytes: &Vec<u8>) -> (r: String)
    ensures
        r@.len() == 2 * bytes@.len(),
{
    hex::encode(bytes)
}

/// A freshly generated cookie-signing secret: 64 hex characters. Random, so
/// not stable across restarts; deployments should configure their own.
pub fn default_session_secret() -> (r: String)
    ensures
        r@.len() == 64,
{
    let bytes = random_bytes32();
    hex_encode(&bytes)
}

pub fn default_host() -> (r: String)
    ensures
        r@ == "0.0.0.0"@,
{
    "0.0.0.0".to_owned()
}

pub fn default_port() -> (r: u16)
    ensures
        r == 8080,
{
    8080
}

pub fn default_db_path() -> (r: String)
    ensures
        r@ == "./obsidian-host.db"@,
{
    "./obsidian-host.db".to_owned()
}

/// The directories excluded from vault indexing by default.
pub fn default_exclusions() -> (r: Vec<String>)
    ensures
        seq_views(r@) == seq![".git"@, ".obsidian"@, ".trash"@, "node_modules"@],
{
    let mut r: Vec<String> = Vec::new();
    r.push(".git".to_owned());
    r.push(".obsidian".to_owned());
    r.push(".trash".to_owned());
    r.push("node_modules".to_owned());
    proof {
        assert(seq_views(r@) =~= seq![".git"@, ".obsidian"@, ".trash"@, "node_modules"@]);
    }
    r
}

impl Default for AuthConfig {
    fn default() -> (r: Self)
        ensures
            r.enabled == false,
            r.google_client_id@ == Seq::<char>::empty(),
            r.google_client_secret@ == Seq::<char>::empty(),
            r.external_url@ == "http://localhost:8080"@,
            r.session_duration_hours == 168,
            r.session_secret@.len() == 64,
            r.force_secure_cookies == false,
    {
        let r = AuthConfig {
            enabled: default_auth_enabled(),
            google_client_id: String::new(),
            google_client_secret: String::new(),
            external_url: default_external_url(),
            session_duration_hours: default_session_hours(),
            session_secret: default_session_secret(),
            force_secure_cookies: false,
        };
        r
    }
}

impl Default for ServerConfig {
    fn default() -> (r: Self)
        ensures
            r.host@ == "0.0.0.0"@,
            r.port == 8080,
    {
        ServerConfig { host: default_host(), port: default_port() }
    }
}

impl Default for DatabaseConfig {
    fn default() -> (r: Self)
        ensures
            r.path@ == "./obsidian-host.db"@,
    {
        DatabaseConfig { path: default_db_path() }
    }
}

impl Default for VaultConfig {
    fn default() -> (r: Self)
        ensures
            seq_views(r.index_exclusions@) == seq![
                ".git"@,
                ".obsidian"@,
                ".trash"@,
                "node_modules"@,
            ],
    {
        VaultConfig { index_exclusions: default_exclusions() }
    }
}

impl Default for AppConfig {
    fn default() -> (r: Self)
        ensures
            r.server.host@ == "0.0.0.0"@,
            r.server.port == 8080,
            r.database.path@ == "./obsidian-host.db"@,
            seq_views(r.vault.index_exclusions@) == seq![
                ".git"@,
                ".obsidian"@,
                ".trash"@,
                "node_modules"@,
            ],
            r.auth.enabled == false,
            r.auth.external_url@ == "http://localhost:8080"@,
            r.auth.session_duration_hours == 168,
            r.auth.session_secret@.len() == 64,
    {
        AppConfig {
            server: ServerConfig { host: default_host(), port: default_port() },
            database: DatabaseConfig { path: default_db_path() },
            vault: VaultConfig { index_exclusions: default_exclusions() },
            auth: AuthConfig::default(),
        }
    }
}

} // verus!
