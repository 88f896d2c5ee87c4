//! Host-side plugin extension system: manifest validation, dependency
//! resolution into a deterministic load order, a capability-gated host API,
//! an in-process event bus and command registry, namespaced plugin storage,
//! and the lifecycle state machine that drives two execution runtimes.

pub mod bus;
pub mod config;
pub mod errors;
pub mod frontmatter;
pub mod host_api;
pub mod markdown;
pub mod models;
pub mod plugin;
pub mod registry;
pub mod resolver;
pub mod search;
pub mod semver;
pub mod storage;
pub mod strutil;
pub mod wiki;
