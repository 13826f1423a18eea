//! Verified core of a tool that keeps the Codex home directory consistent
//! with the provider configured in `config.toml`.
pub mod text;
pub mod paths;
pub mod counts;
pub mod rollout;
pub mod json;
pub mod records;
pub mod collection;
pub mod workspace;
pub mod sqlite;
pub mod visibility;
pub mod cwdstats;
pub mod config;
pub mod backup;
pub mod sync;
pub mod laws;
pub mod repair_laws;
