//! Package management logic for miyu extensions: registry lookup and
//! search, installed-state bookkeeping, placeholder resolution, managed
//! path checks and `config.jsonc` MCP server editing.

pub mod text;
pub mod placeholder;
pub mod error;
pub mod paths;
pub mod json;
pub mod types;
pub mod config;
pub mod state;
pub mod registry;
pub mod source;
pub mod version;
pub mod actions;
