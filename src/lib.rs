//! Keeps dotfiles linked between a home directory and a dotfolder.
//!
//! `paths` resolves path notations, `config` holds the declared
//! configuration, `state` the snapshot of the last sync, `engine` decides
//! which filesystem operations reconcile each managed path, `model` states
//! and proves what those operations achieve on a model of the filesystem,
//! and `store` writes the configuration back into its TOML document.

pub mod args;
pub mod config;
pub mod engine;
pub mod model;
pub mod paths;
pub mod state;
pub mod store;
