//! Resolution of dotfile packages into a destination tree, and the decisions
//! that turn the resolved mapping into symbolic links.
//!
//! `file_actions` resolves the mapping from walked package directories,
//! `actions` decides, entry by entry, what an install or an uninstall does,
//! and `files` holds the path rewriting that both rest on. `settings` is the
//! configuration of a run; `parsers` reads it from the command line and from
//! configuration files.

pub mod text;
pub mod files;
pub mod order;
pub mod mapping;
pub mod pattern;
pub mod file_actions;
pub mod terminal;
pub mod actions;
pub mod nix_helper;
pub mod parsers;
pub mod settings;
