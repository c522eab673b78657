//! A scaffolding and manifest-maintenance library for Factorio mods.
//!
//! The library parses a mod's `info.json`, applies a semantic-version
//! mutation to its `version` field, and renders the manifest back to
//! bytes, preserving key order.  It also renders the manifest skeleton
//! that `init` writes into a fresh mod directory, parses dependency
//! strings, and routes command-line verbs to actions.

pub mod args;
pub mod config;
pub mod deps;
pub mod json;
pub mod manifest;
pub mod template;
pub mod update;
pub mod version;
