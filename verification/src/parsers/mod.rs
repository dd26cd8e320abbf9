//! Where a configuration comes from.

pub mod clap;
pub mod config;
