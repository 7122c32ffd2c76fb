//! A store of settings that are defined via multiple JSON files.
//!
//! Default settings, user settings and the local settings of directories are read from JSON text.
//! The store keeps the contents of each file by type of setting, and the values that each setting
//! loads from them: one that applies everywhere, and one for each directory that customizes it.
pub mod histories;
pub mod json;
pub mod laws;
pub mod meaning;
pub mod model;
pub mod order;
pub mod parse;
pub mod path;
pub mod path_map;
pub mod reload;
pub mod setting;
pub mod store;
pub mod structure;

pub use json::{merge_non_null_json_value_into, Json, JsonObject};
pub use path::{ComponentKind, PathComponent, SettingsPath};
pub use setting::{try_load_via_json_merge, JsonCodec, Setting, SettingValue};
pub use store::{SettingsError, SettingsStore};
