//! Verified core of the Codex toolkit: relay configuration, context entries,
//! history provider synchronisation, usage statistics and the local router's
//! protocol conversion.

pub mod text;
pub mod json;
pub mod toml_doc;
pub mod local_router;
pub mod relay_config;
pub mod router_stream;
pub mod router_http;
pub mod context_config;
pub mod history_sync;
pub mod history_files;
pub mod plugin_unlock;
pub mod usage;
