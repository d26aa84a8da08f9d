//! Plugin list management for a game server: the block-structured plugin
//! file format, the in-memory plugin registry, and the decisions that locate
//! the game's installation directory.

pub mod text;
pub mod plugin;
pub mod registry;
pub mod codec;
pub mod resolver;
pub mod config;
pub mod roundtrip;

pub use codec::{load_plugins, serialize_plugins};
pub use config::{settings_root, Config, SettingsRoot};
pub use plugin::{
    is_script_file, AdminLevel, PluginEntry, PluginState, ValidationError, ADMIN_INIT, ADMIN_NO,
    ADMIN_OWNER, ADMIN_YES, FILENAME_DISABLED_PLUGINS, FILENAME_PLUGINS,
};
pub use registry::{EditableFields, PluginRegistry};
pub use resolver::{next_action, ResolveAction, ResolveEvent, ResolveStep};
