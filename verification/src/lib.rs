//! Roblox Slang: the verified core of a type-safe internationalization tool
//! for Roblox experiences.
//!
//! The library holds the logic that turns translations into Roblox Cloud CSV
//! files and back, reads gettext catalogues, applies overrides, validates
//! keys, locales and configuration, reports coverage, finds unused keys in Luau
//! sources, and plans the synchronisation of local and cloud translations.

pub mod text;
pub mod translation;
pub mod csv_table;
pub mod gettext;
pub mod lua_scan;
pub mod unused_keys;
pub mod locales;
pub mod validation;
pub mod merge;
pub mod sync;
pub mod coverage;
pub mod overrides;
pub mod cloud;
pub mod json_tree;
